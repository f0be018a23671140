//! Integer decisions about the contours of a color region before SVG
//! emission: which contours repeat the document background, and the bounding
//! boxes used to nest contours.

use vstd::prelude::*;

use crate::contour::{contour_is_hole, twice_signed_area, Contour, Point};
use crate::segment::PaletteColor;

verus! {

/// The color is the document background color.
pub open spec fn is_background(color: PaletteColor, background: (u8, u8, u8)) -> bool {
    color.r == background.0 && color.g == background.1 && color.b == background.2
}

/// Whether a region color is the (resolved) document background color.
pub fn is_background_color(color: PaletteColor, background: (u8, u8, u8)) -> (r: bool)
    ensures
        r == is_background(color, background),
{
    color.r == background.0 && color.g == background.1 && color.b == background.2
}

/// The point lies on or beyond the border of a `width` by `height` canvas
/// (the canvas size taken as a 32-bit signed coordinate).
pub open spec fn on_canvas_border(p: Point, width: u32, height: u32) -> bool {
    p.x <= 0 || p.y <= 0 || p.x >= width as i32 || p.y >= height as i32
}

/// Some point of the contour lies on the canvas border.
pub open spec fn touches_border(c: Seq<Point>, width: u32, height: u32) -> bool {
    exists|i: int| 0 <= i < c.len() && #[trigger] on_canvas_border(c[i], width, height)
}

/// Whether any point of the contour lies on the border of the canvas.
pub fn contour_touches_canvas_border(contour: &Contour, width: u32, height: u32) -> (r: bool)
    ensures
        r == touches_border(contour@, width, height),
{
    let max_x = width as i32;
    let max_y = height as i32;
    let mut i: usize = 0;
    while i < contour.len()
        invariant
            i <= contour@.len(),
            max_x == width as i32,
            max_y == height as i32,
            forall|k: int| 0 <= k < i ==> !#[trigger] on_canvas_border(contour@[k], width, height),
        decreases contour@.len() - i,
    {
        let p = contour[i];
        if p.x <= 0 || p.y <= 0 || p.x >= max_x || p.y >= max_y {
            proof {
                assert(on_canvas_border(contour@[i as int], width, height));
            }
            return true;
        }
        i += 1;
    }
    false
}

/// The contour is the outline of background that the document's background
/// rectangle already paints: an outer (non-hole) contour of a background
/// colored region that reaches the canvas border.
pub open spec fn repeats_background(
    c: Seq<Point>,
    color: PaletteColor,
    background: (u8, u8, u8),
    width: u32,
    height: u32,
) -> bool {
    is_background(color, background) && !(twice_signed_area(c) < 0) && touches_border(c, width, height)
}

/// For each contour of a region, whether it merely repeats the background:
/// border-connected outer contours of a background-colored region are left
/// out of the SVG, while holes and interior islands of that color are kept.
pub fn suppressed_background_contours(
    contours: &Vec<Contour>,
    color: PaletteColor,
    background: (u8, u8, u8),
    width: u32,
    height: u32,
) -> (r: Vec<bool>)
    requires
        forall|k: int| 0 <= k < contours@.len() ==> (#[trigger] contours@[k])@.len() < 0x4000_0000_0000_0000,
    ensures
        r@.len() == contours@.len(),
        forall|k: int|
            0 <= k < contours@.len() ==> #[trigger] r@[k] == repeats_background(
                contours@[k]@,
                color,
                background,
                width,
                height,
            ),
{
    let background_region = is_background_color(color, background);
    let mut suppressed: Vec<bool> = Vec::new();
    let mut k: usize = 0;
    while k < contours.len()
        invariant
            k <= contours@.len(),
            background_region == is_background(color, background),
            forall|k: int| 0 <= k < contours@.len() ==> (#[trigger] contours@[k])@.len() < 0x4000_0000_0000_0000,
            suppressed@.len() == k,
            forall|j: int|
                0 <= j < k ==> #[trigger] suppressed@[j] == repeats_background(
                    contours@[j]@,
                    color,
                    background,
                    width,
                    height,
                ),
        decreases contours@.len() - k,
    {
        let value = if background_region {
            !contour_is_hole(&contours[k]) && contour_touches_canvas_border(&contours[k], width, height)
        } else {
            false
        };
        suppressed.push(value);
        k += 1;
    }
    suppressed
}

/// The bounding box of a contour (all zero for an empty contour).
#[derive(Debug, Clone, Copy, Default, PartialEq, Eq)]
pub struct ContourBounds {
    /// Smallest x coordinate.
    pub min_x: i32,
    /// Smallest y coordinate.
    pub min_y: i32,
    /// Largest x coordinate.
    pub max_x: i32,
    /// Largest y coordinate.
    pub max_y: i32,
}

/// `b` is the bounding box of the points: it holds every point, and each of
/// its sides passes through one (all zero when there are none).
pub open spec fn is_bounding_box(c: Seq<Point>, b: ContourBounds) -> bool {
    if c.len() == 0 {
        b == ContourBounds { min_x: 0, min_y: 0, max_x: 0, max_y: 0 }
    } else {
        &&& forall|i: int|
            0 <= i < c.len() ==> b.min_x <= (#[trigger] c[i]).x <= b.max_x && b.min_y <= c[i].y <= b.max_y
        &&& exists|i: int| 0 <= i < c.len() && (#[trigger] c[i]).x == b.min_x
        &&& exists|i: int| 0 <= i < c.len() && (#[trigger] c[i]).x == b.max_x
        &&& exists|i: int| 0 <= i < c.len() && (#[trigger] c[i]).y == b.min_y
        &&& exists|i: int| 0 <= i < c.len() && (#[trigger] c[i]).y == b.max_y
    }
}

/// The bounding box of a contour.
pub fn contour_bounds(contour: &Contour) -> (r: ContourBounds)
    ensures
        is_bounding_box(contour@, r),
{
    if contour.len() == 0 {
        return ContourBounds { min_x: 0, min_y: 0, max_x: 0, max_y: 0 };
    }
    let first = contour[0];
    let mut b = ContourBounds { min_x: first.x, min_y: first.y, max_x: first.x, max_y: first.y };
    let mut i: usize = 1;
    while i < contour.len()
        invariant
            1 <= i <= contour@.len(),
            forall|k: int|
                0 <= k < i ==> b.min_x <= (#[trigger] contour@[k]).x <= b.max_x && b.min_y <= contour@[k].y <= b.max_y,
            exists|k: int| 0 <= k < i && (#[trigger] contour@[k]).x == b.min_x,
            exists|k: int| 0 <= k < i && (#[trigger] contour@[k]).x == b.max_x,
            exists|k: int| 0 <= k < i && (#[trigger] contour@[k]).y == b.min_y,
            exists|k: int| 0 <= k < i && (#[trigger] contour@[k]).y == b.max_y,
        decreases contour@.len() - i,
    {
        let p = contour[i];
        if p.x < b.min_x {
            b.min_x = p.x;
        }
        if p.y < b.min_y {
            b.min_y = p.y;
        }
        if p.x > b.max_x {
            b.max_x = p.x;
        }
        if p.y > b.max_y {
            b.max_y = p.y;
        }
        i += 1;
    }
    b
}

/// The children of contour `p` among the first `m` contours of a hierarchy,
/// in index order.
pub open spec fn kids(parents: Seq<Option<usize>>, p: int, m: int) -> Seq<usize>
    decreases m,
{
    if m <= 0 {
        seq![]
    } else if parents[m - 1] == Some(p as usize) {
        kids(parents, p, m - 1).push((m - 1) as usize)
    } else {
        kids(parents, p, m - 1)
    }
}

/// The children of contour `p`, in index order.
pub open spec fn children_of(parents: Seq<Option<usize>>, p: int) -> Seq<usize> {
    kids(parents, p, parents.len() as int)
}

/// The `k`-th ancestor of contour `i` (`i` itself for `k == 0`).
pub open spec fn ancestor(parents: Seq<Option<usize>>, i: int, k: nat) -> Option<usize>
    decreases k,
{
    if k == 0 {
        Some(i as usize)
    } else {
        match ancestor(parents, i, (k - 1) as nat) {
            None => None,
            Some(a) => parents[a as int],
        }
    }
}

/// The parent links form a forest: every parent is a contour of the region,
/// and no chain of parents is as long as the number of contours (so none
/// loops).
pub open spec fn is_forest(parents: Seq<Option<usize>>) -> bool {
    &&& forall|i: int| 0 <= i < parents.len() ==> (#[trigger] parents[i] matches Some(p) ==> p < parents.len())
    &&& forall|i: int| 0 <= i < parents.len() ==> #[trigger] ancestor(parents, i, parents.len() as nat) is None
}

/// The closest ancestor reached from `cursor` (following at most `fuel`
/// parent links) that is an outer contour and not suppressed.
pub open spec fn retained_ancestor(
    parents: Seq<Option<usize>>,
    holes: Seq<bool>,
    suppressed: Seq<bool>,
    cursor: Option<usize>,
    fuel: nat,
) -> Option<usize>
    decreases fuel,
{
    match cursor {
        None => None,
        Some(p) => if fuel == 0 {
            None
        } else if !holes[p as int] && !suppressed[p as int] {
            Some(p)
        } else {
            retained_ancestor(parents, holes, suppressed, parents[p as int], (fuel - 1) as nat)
        },
    }
}

/// The contours of the group rooted at `i`, in depth-first order: `i` unless
/// it is suppressed, then the groups of its children that are no roots
/// themselves (descending at most `fuel` levels).
pub open spec fn path_group(
    parents: Seq<Option<usize>>,
    suppressed: Seq<bool>,
    root_mask: Seq<bool>,
    i: int,
    fuel: nat,
) -> Seq<usize>
    decreases fuel, 1int, 0int,
{
    (if !suppressed[i] {
        seq![i as usize]
    } else {
        seq![]
    }) + child_groups(parents, suppressed, root_mask, i, children_of(parents, i).len() as int, fuel)
}

/// The groups of the first `k` children of `i` that are no roots.
pub open spec fn child_groups(
    parents: Seq<Option<usize>>,
    suppressed: Seq<bool>,
    root_mask: Seq<bool>,
    i: int,
    k: int,
    fuel: nat,
) -> Seq<usize>
    decreases fuel, 0int, k,
{
    if k <= 0 || fuel == 0 {
        seq![]
    } else {
        let c = children_of(parents, i)[k - 1] as int;
        child_groups(parents, suppressed, root_mask, i, k - 1, fuel) + (if root_mask[c] {
            seq![]
        } else {
            path_group(parents, suppressed, root_mask, c, (fuel - 1) as nat)
        })
    }
}

/// Contour `i` starts a group: an outer, unsuppressed contour with no outer,
/// unsuppressed ancestor.
pub open spec fn is_group_root(parents: Seq<Option<usize>>, holes: Seq<bool>, suppressed: Seq<bool>, i: int) -> bool {
    !holes[i] && !suppressed[i] && retained_ancestor(parents, holes, suppressed, parents[i], parents.len() as nat)
        is None
}

/// The group roots among the first `m` contours, in index order.
pub open spec fn group_roots(parents: Seq<Option<usize>>, holes: Seq<bool>, suppressed: Seq<bool>, m: int) -> Seq<
    usize,
>
    decreases m,
{
    if m <= 0 {
        seq![]
    } else if is_group_root(parents, holes, suppressed, m - 1) {
        group_roots(parents, holes, suppressed, m - 1).push((m - 1) as usize)
    } else {
        group_roots(parents, holes, suppressed, m - 1)
    }
}

/// Number of set flags among the first `m`.
pub open spec fn count_set(flags: Seq<bool>, m: int) -> int
    decreases m,
{
    if m <= 0 {
        0
    } else {
        count_set(flags, m - 1) + (if flags[m - 1] {
            1int
        } else {
            0int
        })
    }
}

proof fn lemma_kids_bound(parents: Seq<Option<usize>>, p: int, m: int)
    requires
        0 <= m <= parents.len(),
        m <= usize::MAX,
    ensures
        forall|k: int| 0 <= k < kids(parents, p, m).len() ==> (#[trigger] kids(parents, p, m)[k] as int) < m,
    decreases m,
{
    if m > 0 {
        lemma_kids_bound(parents, p, m - 1);
        let prev = kids(parents, p, m - 1);
        let cur = kids(parents, p, m);
        assert(((m - 1) as usize) as int == m - 1);
        assert forall|k: int| 0 <= k < cur.len() implies (#[trigger] cur[k] as int) < m by {
            if k < prev.len() {
                assert(cur[k] == prev[k]);
            }
        }
    }
}

/// The children lists of a contour hierarchy given by parent links.
fn contour_children(parents: &Vec<Option<usize>>) -> (r: Vec<Vec<usize>>)
    requires
        forall|i: int| 0 <= i < parents@.len() ==> (#[trigger] parents@[i] matches Some(p) ==> p < parents@.len()),
    ensures
        r@.len() == parents@.len(),
        forall|p: int| 0 <= p < parents@.len() ==> (#[trigger] r@[p])@ == children_of(parents@, p),
{
    let n = parents.len();
    let mut children: Vec<Vec<usize>> = Vec::new();
    let mut p: usize = 0;
    while p < n
        invariant
            p <= n,
            n == parents@.len(),
            children@.len() == p,
            forall|q: int| 0 <= q < p ==> (#[trigger] children@[q])@ == kids(parents@, q, 0),
        decreases n - p,
    {
        children.push(Vec::new());
        p += 1;
    }
    let mut i: usize = 0;
    while i < n
        invariant
            i <= n,
            n == parents@.len(),
            forall|i: int| 0 <= i < parents@.len() ==> (#[trigger] parents@[i] matches Some(p) ==> p < parents@.len()),
            children@.len() == n,
            forall|q: int| 0 <= q < n ==> (#[trigger] children@[q])@ == kids(parents@, q, i as int),
        decreases n - i,
    {
        match parents[i] {
            Some(parent) => {
                children[parent].push(i);
            },
            None => {},
        }
        i += 1;
    }
    children
}

/// The closest outer, unsuppressed ancestor of contour `index`, if any.
fn nearest_retained_outer_ancestor(
    index: usize,
    parents: &Vec<Option<usize>>,
    holes: &Vec<bool>,
    suppressed: &Vec<bool>,
) -> (r: Option<usize>)
    requires
        index < parents@.len(),
        holes@.len() == parents@.len(),
        suppressed@.len() == parents@.len(),
        forall|i: int| 0 <= i < parents@.len() ==> (#[trigger] parents@[i] matches Some(p) ==> p < parents@.len()),
    ensures
        r == retained_ancestor(parents@, holes@, suppressed@, parents@[index as int], parents@.len() as nat),
{
    let n = parents.len();
    let mut cursor = parents[index];
    let mut fuel: usize = n;
    while fuel > 0
        invariant
            n == parents@.len(),
            holes@.len() == n,
            suppressed@.len() == n,
            forall|i: int| 0 <= i < parents@.len() ==> (#[trigger] parents@[i] matches Some(p) ==> p < parents@.len()),
            cursor matches Some(c) ==> c < n,
            retained_ancestor(parents@, holes@, suppressed@, cursor, fuel as nat) == retained_ancestor(
                parents@,
                holes@,
                suppressed@,
                parents@[index as int],
                n as nat,
            ),
        decreases fuel,
    {
        match cursor {
            None => {
                return None;
            },
            Some(parent) => {
                if !holes[parent] && !suppressed[parent] {
                    return Some(parent);
                }
                cursor = parents[parent];
                fuel -= 1;
            },
        }
    }
    None
}

/// Append the contours of the group rooted at `index` to `indices`, depth
/// first, descending at most `fuel` levels.
fn collect_region_path_group(
    index: usize,
    children: &Vec<Vec<usize>>,
    parents: Ghost<Seq<Option<usize>>>,
    suppressed: &Vec<bool>,
    root_mask: &Vec<bool>,
    indices: &mut Vec<usize>,
    fuel: usize,
)
    requires
        index < parents@.len(),
        parents@.len() <= usize::MAX,
        children@.len() == parents@.len(),
        suppressed@.len() == parents@.len(),
        root_mask@.len() == parents@.len(),
        forall|p: int| 0 <= p < parents@.len() ==> (#[trigger] children@[p])@ == children_of(parents@, p),
    ensures
        final(indices)@ == old(indices)@ + path_group(parents@, suppressed@, root_mask@, index as int, fuel as nat),
    decreases fuel,
{
    let ghost start = indices@;
    if !suppressed[index] {
        indices.push(index);
    }
    let ghost own = if !suppressed@[index as int] {
        seq![index]
    } else {
        seq![]
    };
    proof {
        assert(indices@ =~= start + own);
        lemma_kids_bound(parents@, index as int, parents@.len() as int);
    }
    let kids_of = &children[index];
    let mut k: usize = 0;
    while k < kids_of.len()
        invariant
            index < parents@.len(),
            parents@.len() <= usize::MAX,
            children@.len() == parents@.len(),
            suppressed@.len() == parents@.len(),
            root_mask@.len() == parents@.len(),
            forall|p: int| 0 <= p < parents@.len() ==> (#[trigger] children@[p])@ == children_of(parents@, p),
            kids_of@ == children_of(parents@, index as int),
            forall|j: int| 0 <= j < kids_of@.len() ==> (#[trigger] kids_of@[j] as int) < parents@.len(),
            k <= kids_of@.len(),
            indices@ == start + own + child_groups(parents@, suppressed@, root_mask@, index as int, k as int, fuel as nat),
        decreases kids_of@.len() - k,
    {
        if fuel > 0 {
            let c = kids_of[k];
            if !root_mask[c] {
                collect_region_path_group(c, children, parents, suppressed, root_mask, indices, fuel - 1);
            }
        }
        proof {
            assert(indices@ =~= start + own + child_groups(parents@, suppressed@, root_mask@, index as int, k + 1, fuel as nat));
        }
        k += 1;
    }
    proof {
        assert(indices@ =~= start + path_group(parents@, suppressed@, root_mask@, index as int, fuel as nat));
    }
}

/// Whether each contour is a hole.
pub open spec fn hole_flags(contours: Seq<Contour>) -> Seq<bool> {
    Seq::new(contours.len(), |k: int| twice_signed_area(contours[k]@) < 0)
}

/// Whether each contour merely repeats the background.
pub open spec fn suppression_flags(
    contours: Seq<Contour>,
    color: PaletteColor,
    background: (u8, u8, u8),
    width: u32,
    height: u32,
) -> Seq<bool> {
    Seq::new(contours.len(), |k: int| repeats_background(contours[k]@, color, background, width, height))
}

/// Whether each contour starts a group.
pub open spec fn root_flags(parents: Seq<Option<usize>>, holes: Seq<bool>, suppressed: Seq<bool>) -> Seq<bool> {
    Seq::new(parents.len(), |i: int| is_group_root(parents, holes, suppressed, i))
}

/// How the contours of one color region become SVG paths: one group of
/// contour indices per path, and how many contours were left out as repeated
/// background.
#[derive(Debug, Clone, Default, PartialEq, Eq)]
pub struct RegionPathPlan {
    /// The contour indices of each path, in drawing order.
    pub contour_groups: Vec<Vec<usize>>,
    /// Number of contours left out because they repeat the background.
    pub contours_suppressed_background: usize,
}

/// Plan the paths of a color region, given the nesting of its contours
/// (`parents[i]` is the smallest contour around contour `i`). Border-connected
/// outer contours of a background-colored region are left out; every other
/// outer contour that no kept outer contour surrounds starts a path, which
/// also takes the holes and islands nested inside it (depth first), down to
/// the next such outer contour.
pub fn region_path_groups(
    contours: &Vec<Contour>,
    parents: &Vec<Option<usize>>,
    color: PaletteColor,
    background: (u8, u8, u8),
    width: u32,
    height: u32,
) -> (r: RegionPathPlan)
    requires
        parents@.len() == contours@.len(),
        is_forest(parents@),
        forall|k: int| 0 <= k < contours@.len() ==> (#[trigger] contours@[k])@.len() < 0x4000_0000_0000_0000,
    ensures
        ({
            let holes = hole_flags(contours@);
            let suppressed = suppression_flags(contours@, color, background, width, height);
            let roots = group_roots(parents@, holes, suppressed, contours@.len() as int);
            let mask = root_flags(parents@, holes, suppressed);
            &&& r.contour_groups@.len() == roots.len()
            &&& forall|g: int|
                0 <= g < roots.len() ==> (#[trigger] r.contour_groups@[g])@ == path_group(
                    parents@,
                    suppressed,
                    mask,
                    roots[g] as int,
                    contours@.len() as nat,
                )
            &&& forall|g: int|
                0 <= g < roots.len() ==> (#[trigger] r.contour_groups@[g])@.len() > 0 && r.contour_groups@[g]@[0]
                    == roots[g]
            &&& r.contours_suppressed_background == count_set(suppressed, contours@.len() as int)
        }),
{
    let n = contours.len();
    let ghost holes_spec = hole_flags(contours@);
    let ghost supp_spec = suppression_flags(contours@, color, background, width, height);
    let ghost mask_spec = root_flags(parents@, holes_spec, supp_spec);
    let suppressed = suppressed_background_contours(contours, color, background, width, height);
    proof {
        assert(suppressed@ =~= supp_spec);
    }
    let mut holes: Vec<bool> = Vec::new();
    let mut k: usize = 0;
    while k < n
        invariant
            k <= n,
            n == contours@.len(),
            forall|k: int| 0 <= k < contours@.len() ==> (#[trigger] contours@[k])@.len() < 0x4000_0000_0000_0000,
            holes@ == hole_flags(contours@).subrange(0, k as int),
        decreases n - k,
    {
        let hole = contour_is_hole(&contours[k]);
        holes.push(hole);
        proof {
            assert(holes@ =~= hole_flags(contours@).subrange(0, k + 1));
        }
        k += 1;
    }
    proof {
        assert(holes@ =~= holes_spec);
    }
    let children = contour_children(parents);
    let mut root_mask: Vec<bool> = Vec::new();
    let mut roots: Vec<usize> = Vec::new();
    let mut suppressed_count: usize = 0;
    let mut index: usize = 0;
    while index < n
        invariant
            index <= n,
            n == contours@.len(),
            n == parents@.len(),
            holes@ == holes_spec,
            suppressed@ == supp_spec,
            holes_spec.len() == n,
            supp_spec.len() == n,
            mask_spec == root_flags(parents@, holes_spec, supp_spec),
            is_forest(parents@),
            root_mask@ == mask_spec.subrange(0, index as int),
            roots@ == group_roots(parents@, holes_spec, supp_spec, index as int),
            suppressed_count == count_set(supp_spec, index as int),
            suppressed_count <= index,
        decreases n - index,
    {
        let mut is_root = false;
        if !holes[index] && !suppressed[index] {
            if nearest_retained_outer_ancestor(index, parents, &holes, &suppressed).is_none() {
                is_root = true;
            }
        }
        if is_root {
            roots.push(index);
        }
        root_mask.push(is_root);
        if suppressed[index] {
            suppressed_count += 1;
        }
        proof {
            assert(root_mask@ =~= mask_spec.subrange(0, index + 1));
        }
        index += 1;
    }
    proof {
        assert(root_mask@ =~= mask_spec);
    }
    let mut groups: Vec<Vec<usize>> = Vec::new();
    let mut g: usize = 0;
    proof {
        lemma_group_roots_bound(parents@, holes_spec, supp_spec, n as int);
    }
    while g < roots.len()
        invariant
            g <= roots@.len(),
            n == contours@.len(),
            n == parents@.len(),
            children@.len() == n,
            forall|p: int| 0 <= p < parents@.len() ==> (#[trigger] children@[p])@ == children_of(parents@, p),
            suppressed@ == supp_spec,
            root_mask@ == mask_spec,
            supp_spec.len() == n,
            mask_spec.len() == n,
            holes_spec.len() == n,
            roots@ == group_roots(parents@, holes_spec, supp_spec, n as int),
            forall|j: int|
                0 <= j < roots@.len() ==> (#[trigger] roots@[j] as int) < n && is_group_root(
                    parents@,
                    holes_spec,
                    supp_spec,
                    roots@[j] as int,
                ),
            groups@.len() == g,
            forall|j: int|
                0 <= j < g ==> (#[trigger] groups@[j])@ == path_group(
                    parents@,
                    supp_spec,
                    mask_spec,
                    roots@[j] as int,
                    n as nat,
                ),
        decreases roots@.len() - g,
    {
        let root = roots[g];
        let mut indices: Vec<usize> = Vec::new();
        collect_region_path_group(root, &children, Ghost(parents@), &suppressed, &root_mask, &mut indices, n);
        proof {
            assert(indices@ =~= path_group(parents@, supp_spec, mask_spec, root as int, n as nat));
        }
        groups.push(indices);
        g += 1;
    }
    proof {
        assert forall|j: int| 0 <= j < groups@.len() implies (#[trigger] groups@[j])@.len() > 0 && groups@[j]@[0]
            == roots@[j] by {
            assert(!supp_spec[roots@[j] as int]);
        }
    }
    RegionPathPlan { contour_groups: groups, contours_suppressed_background: suppressed_count }
}

proof fn lemma_group_roots_bound(parents: Seq<Option<usize>>, holes: Seq<bool>, suppressed: Seq<bool>, m: int)
    requires
        0 <= m <= usize::MAX,
    ensures
        forall|j: int|
            0 <= j < group_roots(parents, holes, suppressed, m).len() ==> (#[trigger] group_roots(
                parents,
                holes,
                suppressed,
                m,
            )[j] as int) < m && is_group_root(parents, holes, suppressed, group_roots(parents, holes, suppressed, m)[j] as int),
    decreases m,
{
    if m > 0 {
        lemma_group_roots_bound(parents, holes, suppressed, m - 1);
        let prev = group_roots(parents, holes, suppressed, m - 1);
        let cur = group_roots(parents, holes, suppressed, m);
        assert(((m - 1) as usize) as int == m - 1);
        assert forall|j: int| 0 <= j < cur.len() implies (#[trigger] cur[j] as int) < m && is_group_root(
            parents,
            holes,
            suppressed,
            cur[j] as int,
        ) by {
            if j < prev.len() {
                assert(cur[j] == prev[j]);
            }
        }
    }
}

/// The `k`-th ancestor of `i` is an outer contour that is not suppressed.
pub open spec fn retained_at(
    parents: Seq<Option<usize>>,
    holes: Seq<bool>,
    suppressed: Seq<bool>,
    i: int,
    k: nat,
) -> bool {
    match ancestor(parents, i, k) {
        Some(a) => !holes[a as int] && !suppressed[a as int],
        None => false,
    }
}

proof fn lemma_ancestor_add(parents: Seq<Option<usize>>, x: int, a: nat, b: nat)
    requires
        0 <= x <= usize::MAX,
    ensures
        ancestor(parents, x, a + b) == match ancestor(parents, x, a) {
            None => None,
            Some(y) => ancestor(parents, y as int, b),
        },
    decreases b,
{
    if b > 0 {
        lemma_ancestor_add(parents, x, a, (b - 1) as nat);
        assert((a + b - 1) as nat == a + (b - 1) as nat);
    } else {
        match ancestor(parents, x, a) {
            None => {},
            Some(y) => {
                assert(((y as int) as usize) == y);
            },
        }
    }
}

proof fn lemma_ancestor_in_range(parents: Seq<Option<usize>>, x: int, k: nat)
    requires
        0 <= x < parents.len(),
        forall|i: int| 0 <= i < parents.len() ==> (#[trigger] parents[i] matches Some(p) ==> p < parents.len()),
    ensures
        ancestor(parents, x, k) matches Some(y) ==> y < parents.len(),
    decreases k,
{
    if k > 0 {
        lemma_ancestor_in_range(parents, x, (k - 1) as nat);
    }
}

proof fn lemma_ancestor_none_stays(parents: Seq<Option<usize>>, x: int, j: nat, k: nat)
    requires
        0 <= x <= usize::MAX,
        j <= k,
        ancestor(parents, x, j) is None,
    ensures
        ancestor(parents, x, k) is None,
{
    lemma_ancestor_add(parents, x, j, (k - j) as nat);
    assert(j + (k - j) as nat == k);
}

/// When one of the first `k` ancestors of `x` (`1 <= k <= fuel`) is kept, the
/// walk from the parent of `x` finds a kept ancestor.
proof fn lemma_retained_found(
    parents: Seq<Option<usize>>,
    holes: Seq<bool>,
    suppressed: Seq<bool>,
    x: int,
    k: nat,
    fuel: nat,
)
    requires
        0 <= x < parents.len(),
        parents.len() <= usize::MAX,
        forall|i: int| 0 <= i < parents.len() ==> (#[trigger] parents[i] matches Some(p) ==> p < parents.len()),
        1 <= k <= fuel,
        retained_at(parents, holes, suppressed, x, k),
    ensures
        retained_ancestor(parents, holes, suppressed, parents[x], fuel) is Some,
    decreases k,
{
    if ancestor(parents, x, 1) is None {
        lemma_ancestor_none_stays(parents, x, 1, k);
    }
    assert((x as usize) as int == x);
    assert(ancestor(parents, x, 0) == Some(x as usize));
    assert(ancestor(parents, x, 1) == parents[x]);
    let p = parents[x]->0;
    if holes[p as int] || suppressed[p as int] {
        assert(k != 1);
        lemma_ancestor_add(parents, x, 1, (k - 1) as nat);
        assert(1 + (k - 1) as nat == k);
        assert(ancestor(parents, p as int, (k - 1) as nat) == ancestor(parents, x, k));
        lemma_retained_found(parents, holes, suppressed, p as int, (k - 1) as nat, (fuel - 1) as nat);
    }
}

/// When none of the first `fuel` ancestors of `x` is kept, the walk from the
/// parent of `x` finds nothing.
proof fn lemma_retained_missing(
    parents: Seq<Option<usize>>,
    holes: Seq<bool>,
    suppressed: Seq<bool>,
    x: int,
    fuel: nat,
)
    requires
        0 <= x < parents.len(),
        parents.len() <= usize::MAX,
        forall|i: int| 0 <= i < parents.len() ==> (#[trigger] parents[i] matches Some(p) ==> p < parents.len()),
        forall|k: nat| 1 <= k <= fuel ==> !#[trigger] retained_at(parents, holes, suppressed, x, k),
    ensures
        retained_ancestor(parents, holes, suppressed, parents[x], fuel) is None,
    decreases fuel,
{
    assert((x as usize) as int == x);
    assert(ancestor(parents, x, 0) == Some(x as usize));
    assert(ancestor(parents, x, 1) == parents[x]);
    if fuel > 0 && parents[x] is Some {
        let p = parents[x]->0;
        assert(!retained_at(parents, holes, suppressed, x, 1));
        assert forall|k: nat| 1 <= k <= (fuel - 1) as nat implies !#[trigger] retained_at(
            parents,
            holes,
            suppressed,
            p as int,
            k,
        ) by {
            lemma_ancestor_add(parents, x, 1, k);
            assert(ancestor(parents, p as int, k) == ancestor(parents, x, 1 + k));
            assert(!retained_at(parents, holes, suppressed, x, 1 + k));
        }
        lemma_retained_missing(parents, holes, suppressed, p as int, (fuel - 1) as nat);
    }
}

proof fn lemma_kids_contain(parents: Seq<Option<usize>>, p: int, c: int, m: int)
    requires
        0 <= c < m <= parents.len(),
        m <= usize::MAX,
        parents[c] == Some(p as usize),
    ensures
        exists|k: int| 0 <= k < kids(parents, p, m).len() && #[trigger] kids(parents, p, m)[k] == c as usize,
    decreases m,
{
    if c < m - 1 {
        lemma_kids_contain(parents, p, c, m - 1);
        let k = choose|k: int| 0 <= k < kids(parents, p, m - 1).len() && #[trigger] kids(parents, p, m - 1)[k] == c as usize;
        assert(kids(parents, p, m)[k] == c as usize);
    } else {
        let kk = kids(parents, p, m);
        assert(kk[kk.len() - 1] == c as usize);
    }
}

proof fn lemma_child_groups_contain(
    parents: Seq<Option<usize>>,
    suppressed: Seq<bool>,
    root_mask: Seq<bool>,
    p: int,
    k: int,
    m: int,
    fuel: nat,
    x: usize,
)
    requires
        0 <= k < m,
        fuel > 0,
        !root_mask[children_of(parents, p)[k] as int],
        path_group(parents, suppressed, root_mask, children_of(parents, p)[k] as int, (fuel - 1) as nat).contains(x),
    ensures
        child_groups(parents, suppressed, root_mask, p, m, fuel).contains(x),
    decreases m,
{
    let prev = child_groups(parents, suppressed, root_mask, p, m - 1, fuel);
    let c = children_of(parents, p)[m - 1] as int;
    let tail = if root_mask[c] {
        seq![]
    } else {
        path_group(parents, suppressed, root_mask, c, (fuel - 1) as nat)
    };
    assert(child_groups(parents, suppressed, root_mask, p, m, fuel) == prev + tail);
    if k < m - 1 {
        lemma_child_groups_contain(parents, suppressed, root_mask, p, k, m - 1, fuel, x);
        let j = choose|j: int| 0 <= j < prev.len() && prev[j] == x;
        assert((prev + tail)[j] == x);
    } else {
        let j = choose|j: int| 0 <= j < tail.len() && tail[j] == x;
        assert((prev + tail)[prev.len() + j] == x);
    }
}

/// A contour lies in the group of its ancestor `r`, `d` levels up, when
/// nothing on the way starts a group of its own.
proof fn lemma_descendant_in_group(
    parents: Seq<Option<usize>>,
    suppressed: Seq<bool>,
    root_mask: Seq<bool>,
    x: int,
    r: int,
    d: nat,
    fuel: nat,
)
    requires
        0 <= x < parents.len(),
        parents.len() <= usize::MAX,
        root_mask.len() == parents.len(),
        forall|i: int| 0 <= i < parents.len() ==> (#[trigger] parents[i] matches Some(p) ==> p < parents.len()),
        0 <= r < parents.len(),
        ancestor(parents, x, d) == Some(r as usize),
        d <= fuel,
        forall|j: nat| j < d ==> (#[trigger] ancestor(parents, x, j) matches Some(y) ==> !root_mask[y as int]),
        !suppressed[x],
    ensures
        path_group(parents, suppressed, root_mask, r, fuel).contains(x as usize),
    decreases d,
{
    lemma_ancestor_in_range(parents, x, d);
    if d == 0 {
        assert(r == x);
        let g = path_group(parents, suppressed, root_mask, r, fuel);
        let own = seq![r as usize];
        let rest = child_groups(parents, suppressed, root_mask, r, children_of(parents, r).len() as int, fuel);
        assert(g == own + rest);
        assert(g[0] == x as usize);
    } else {
        let dm = (d - 1) as nat;
        if ancestor(parents, x, dm) is None {
            assert(ancestor(parents, x, d) is None);
        }
        let c = ancestor(parents, x, dm)->0 as int;
        lemma_ancestor_in_range(parents, x, dm);
        assert(parents[c] == Some(r as usize));
        assert(!root_mask[c]);
        assert forall|j: nat| j < dm implies (#[trigger] ancestor(parents, x, j) matches Some(y) ==> !root_mask[y as int]) by {
            assert(j < d);
        }
        assert((c as usize) as int == c);
        lemma_descendant_in_group(parents, suppressed, root_mask, x, c, dm, (fuel - 1) as nat);
        let n = parents.len() as int;
        lemma_kids_contain(parents, r, c, n);
        let kids_r = children_of(parents, r);
        let k = choose|k: int| 0 <= k < kids_r.len() && #[trigger] kids_r[k] == c as usize;
        lemma_child_groups_contain(parents, suppressed, root_mask, r, k, kids_r.len() as int, fuel, x as usize);
        let own = if !suppressed[r] {
            seq![r as usize]
        } else {
            seq![]
        };
        let rest = child_groups(parents, suppressed, root_mask, r, kids_r.len() as int, fuel);
        let j = choose|j: int| 0 <= j < rest.len() && rest[j] == x as usize;
        assert((own + rest)[own.len() + j] == x as usize);
    }
}

proof fn lemma_topmost_retained(
    parents: Seq<Option<usize>>,
    holes: Seq<bool>,
    suppressed: Seq<bool>,
    i: int,
    k: nat,
) -> (d: nat)
    requires
        retained_at(parents, holes, suppressed, i, 0),
    ensures
        d <= k,
        retained_at(parents, holes, suppressed, i, d),
        forall|j: nat| d < j <= k ==> !#[trigger] retained_at(parents, holes, suppressed, i, j),
    decreases k,
{
    if k == 0 {
        0
    } else if retained_at(parents, holes, suppressed, i, k) {
        k
    } else {
        lemma_topmost_retained(parents, holes, suppressed, i, (k - 1) as nat)
    }
}

proof fn lemma_roots_listed(parents: Seq<Option<usize>>, holes: Seq<bool>, suppressed: Seq<bool>, r: int, m: int)
    requires
        0 <= r < m <= usize::MAX + 1,
        is_group_root(parents, holes, suppressed, r),
    ensures
        exists|g: int|
            0 <= g < group_roots(parents, holes, suppressed, m).len() && #[trigger] group_roots(
                parents,
                holes,
                suppressed,
                m,
            )[g] == r as usize,
    decreases m,
{
    if r < m - 1 {
        lemma_roots_listed(parents, holes, suppressed, r, m - 1);
        let g = choose|g: int|
            0 <= g < group_roots(parents, holes, suppressed, m - 1).len() && #[trigger] group_roots(
                parents,
                holes,
                suppressed,
                m - 1,
            )[g] == r as usize;
        assert(group_roots(parents, holes, suppressed, m)[g] == r as usize);
    } else {
        let roots = group_roots(parents, holes, suppressed, m);
        assert(roots[roots.len() - 1] == r as usize);
    }
}

/// Every kept outer contour (neither a hole nor left out as background) is
/// drawn: it belongs to the path group of the topmost kept outer contour
/// around it, which starts a group. In particular, islands inside a
/// suppressed background keep their own paths.
pub proof fn lemma_kept_outer_contours_are_grouped(
    parents: Seq<Option<usize>>,
    holes: Seq<bool>,
    suppressed: Seq<bool>,
    i: int,
)
    requires
        is_forest(parents),
        parents.len() <= usize::MAX,
        holes.len() == parents.len(),
        suppressed.len() == parents.len(),
        0 <= i < parents.len(),
        !holes[i],
        !suppressed[i],
    ensures
        exists|g: int|
            0 <= g < group_roots(parents, holes, suppressed, parents.len() as int).len() && path_group(
                parents,
                suppressed,
                root_flags(parents, holes, suppressed),
                group_roots(parents, holes, suppressed, parents.len() as int)[g] as int,
                parents.len() as nat,
            ).contains(i as usize),
{
    let n = parents.len();
    let mask = root_flags(parents, holes, suppressed);
    assert(ancestor(parents, i, 0) == Some(i as usize));
    assert(retained_at(parents, holes, suppressed, i, 0));
    let d = lemma_topmost_retained(parents, holes, suppressed, i, (n - 1) as nat);
    lemma_ancestor_in_range(parents, i, d);
    let t = ancestor(parents, i, d)->0 as int;
    assert(ancestor(parents, i, n as nat) is None);
    // The topmost kept outer contour starts a group.
    assert forall|k: nat| 1 <= k <= n implies !#[trigger] retained_at(parents, holes, suppressed, t, k) by {
        lemma_ancestor_add(parents, i, d, k);
        assert((t as usize) == ancestor(parents, i, d)->0);
        if d + k >= n {
            lemma_ancestor_none_stays(parents, i, n as nat, d + k);
        } else {
            assert(!retained_at(parents, holes, suppressed, i, d + k));
        }
    }
    lemma_retained_missing(parents, holes, suppressed, t, n as nat);
    assert(is_group_root(parents, holes, suppressed, t));
    // Nothing between the contour and it starts a group.
    assert forall|j: nat| j < d implies (#[trigger] ancestor(parents, i, j) matches Some(y) ==> !mask[y as int]) by {
        if ancestor(parents, i, j) is Some {
            let y = ancestor(parents, i, j)->0;
            lemma_ancestor_in_range(parents, i, j);
            lemma_ancestor_add(parents, i, j, (d - j) as nat);
            assert(j + (d - j) as nat == d);
            assert(ancestor(parents, y as int, (d - j) as nat) == ancestor(parents, i, d));
            lemma_retained_found(parents, holes, suppressed, y as int, (d - j) as nat, n as nat);
            assert(!is_group_root(parents, holes, suppressed, y as int));
        }
    }
    assert((t as usize) as int == t);
    lemma_descendant_in_group(parents, suppressed, mask, i, t, d, n as nat);
    lemma_roots_listed(parents, holes, suppressed, t, n as int);
    let roots = group_roots(parents, holes, suppressed, n as int);
    let g = choose|g: int| 0 <= g < roots.len() && #[trigger] roots[g] == t as usize;
    assert(roots[g] as int == t);
}

} // verus!
