//! Tiny label components: small 4-connected islands of one label are
//! reassigned to the label that borders them most.

use vstd::prelude::*;
use vstd::set::fold::is_fun_commutative;

use crate::cleanup::{ask_no_farther, is_color_order, no_farther};
use crate::segment::{labels_in_palette, rounded_mean, PaletteAccumulator};

verus! {

// ---------------------------------------------------------------------------
// Connectivity

/// Pixels `i` and `j` of the `w` by `h` grid are horizontal or vertical
/// neighbors.
pub open spec fn grid_neighbor(w: int, h: int, i: int, j: int) -> bool {
    &&& 0 <= i < w * h
    &&& 0 <= j < w * h
    &&& ((i / w == j / w && (i % w == j % w + 1 || j % w == i % w + 1)) || (i % w == j % w && (i / w == j / w + 1
        || j / w == i / w + 1)))
}

/// Neighboring pixels `i` and `j` carry the same label.
pub open spec fn linked(labels: Seq<u8>, w: int, h: int, i: int, j: int) -> bool {
    grid_neighbor(w, h, i, j) && labels[i] == labels[j]
}

/// `p` is a nonempty walk of linked pixels.
pub open spec fn is_walk(labels: Seq<u8>, w: int, h: int, p: Seq<int>) -> bool {
    &&& p.len() >= 1
    &&& forall|t: int| 0 <= t < p.len() - 1 ==> #[trigger] linked(labels, w, h, p[t], p[t + 1])
}

/// Pixel `j` lies in the same 4-connected single-label region as pixel `s`:
/// some walk of linked pixels leads from `s` to `j`.
pub open spec fn connected(labels: Seq<u8>, w: int, h: int, s: int, j: int) -> bool {
    exists|p: Seq<int>| #[trigger] is_walk(labels, w, h, p) && p[0] == s && p[p.len() - 1] == j
}

/// The 4-connected region of pixels with the label of pixel `s` that contains `s`.
pub open spec fn component(labels: Seq<u8>, w: int, h: int, s: int) -> Set<int> {
    Set::new(|j: int| connected(labels, w, h, s, j))
}

proof fn lemma_connected_self(labels: Seq<u8>, w: int, h: int, s: int)
    ensures
        connected(labels, w, h, s, s),
{
    let p = seq![s];
    assert(is_walk(labels, w, h, p));
}

proof fn lemma_connected_step(labels: Seq<u8>, w: int, h: int, s: int, m: int, j: int)
    requires
        connected(labels, w, h, s, m),
        linked(labels, w, h, m, j),
    ensures
        connected(labels, w, h, s, j),
{
    let p = choose|p: Seq<int>| #[trigger] is_walk(labels, w, h, p) && p[0] == s && p[p.len() - 1] == m;
    let q = p.push(j);
    assert forall|t: int| 0 <= t < q.len() - 1 implies #[trigger] linked(labels, w, h, q[t], q[t + 1]) by {
        if t < p.len() - 1 {
            assert(linked(labels, w, h, p[t], p[t + 1]));
        }
    }
    assert(is_walk(labels, w, h, q));
}

proof fn lemma_walk_labels(labels: Seq<u8>, w: int, h: int, p: Seq<int>, t: int)
    requires
        is_walk(labels, w, h, p),
        0 <= t < p.len(),
    ensures
        labels[p[t]] == labels[p[0]],
        t > 0 ==> grid_neighbor(w, h, p[t - 1], p[t]),
    decreases t,
{
    if t > 0 {
        let u = t - 1;
        assert(linked(labels, w, h, p[u], p[u + 1]));
        lemma_walk_labels(labels, w, h, p, t - 1);
    }
}

proof fn lemma_connected_label(labels: Seq<u8>, w: int, h: int, s: int, j: int)
    requires
        connected(labels, w, h, s, j),
        0 <= s < w * h,
    ensures
        labels[j] == labels[s],
        0 <= j < w * h,
{
    let p = choose|p: Seq<int>| #[trigger] is_walk(labels, w, h, p) && p[0] == s && p[p.len() - 1] == j;
    lemma_walk_labels(labels, w, h, p, p.len() - 1);
}

proof fn lemma_connected_symmetric(labels: Seq<u8>, w: int, h: int, a: int, b: int)
    requires
        connected(labels, w, h, a, b),
    ensures
        connected(labels, w, h, b, a),
{
    let p = choose|p: Seq<int>| #[trigger] is_walk(labels, w, h, p) && p[0] == a && p[p.len() - 1] == b;
    let q = p.reverse();
    assert forall|t: int| 0 <= t < q.len() - 1 implies #[trigger] linked(labels, w, h, q[t], q[t + 1]) by {
        let u = p.len() - 2 - t;
        assert(linked(labels, w, h, p[u], p[u + 1]));
        assert(q[t] == p[u + 1]);
        assert(q[t + 1] == p[u]);
    }
    assert(is_walk(labels, w, h, q));
}

proof fn lemma_connected_trans(labels: Seq<u8>, w: int, h: int, a: int, b: int, c: int)
    requires
        connected(labels, w, h, a, b),
        connected(labels, w, h, b, c),
    ensures
        connected(labels, w, h, a, c),
{
    let p = choose|p: Seq<int>| #[trigger] is_walk(labels, w, h, p) && p[0] == a && p[p.len() - 1] == b;
    let q = choose|q: Seq<int>| #[trigger] is_walk(labels, w, h, q) && q[0] == b && q[q.len() - 1] == c;
    let r = p + q.drop_first();
    assert forall|t: int| 0 <= t < r.len() - 1 implies #[trigger] linked(labels, w, h, r[t], r[t + 1]) by {
        if t < p.len() - 1 {
            assert(linked(labels, w, h, p[t], p[t + 1]));
        } else if t == p.len() - 1 {
            let z: int = 0;
            assert(linked(labels, w, h, q[z], q[z + 1]));
        } else {
            let u = t - p.len() + 1;
            assert(linked(labels, w, h, q[u], q[u + 1]));
        }
    }
    assert(is_walk(labels, w, h, r));
    if q.len() == 1 {
        assert(r[r.len() - 1] == c);
    }
}

/// Connected pixels have the same component.
proof fn lemma_same_component(labels: Seq<u8>, w: int, h: int, s: int, j: int)
    requires
        connected(labels, w, h, s, j),
    ensures
        component(labels, w, h, j) == component(labels, w, h, s),
{
    lemma_connected_symmetric(labels, w, h, s, j);
    assert forall|m: int| #[trigger] component(labels, w, h, j).contains(m) == component(labels, w, h, s).contains(m) by {
        if connected(labels, w, h, j, m) {
            lemma_connected_trans(labels, w, h, s, j, m);
        }
        if connected(labels, w, h, s, m) {
            lemma_connected_trans(labels, w, h, j, s, m);
        }
    }
    assert(component(labels, w, h, j) =~= component(labels, w, h, s));
}

/// `visited` is closed under links: every pixel linked to a visited pixel is visited.
pub open spec fn closed_under_links(labels: Seq<u8>, w: int, h: int, visited: Seq<bool>) -> bool {
    forall|i: int, j: int| 0 <= i < visited.len() && visited[i] && #[trigger] linked(labels, w, h, i, j) ==> visited[j]
}

proof fn lemma_walk_inside(labels: Seq<u8>, w: int, h: int, visited: Seq<bool>, p: Seq<int>, t: int)
    requires
        closed_under_links(labels, w, h, visited),
        visited.len() == w * h,
        is_walk(labels, w, h, p),
        0 <= p[0] < w * h,
        visited[p[0]],
        0 <= t < p.len(),
    ensures
        visited[p[t]],
    decreases t,
{
    if t > 0 {
        lemma_walk_inside(labels, w, h, visited, p, t - 1);
        let u = t - 1;
        assert(linked(labels, w, h, p[u], p[u + 1]));
    }
}

proof fn lemma_walk_outside(labels: Seq<u8>, w: int, h: int, visited: Seq<bool>, p: Seq<int>, t: int)
    requires
        closed_under_links(labels, w, h, visited),
        visited.len() == w * h,
        is_walk(labels, w, h, p),
        0 <= p[0] < w * h,
        !visited[p[0]],
        0 <= t < p.len(),
    ensures
        !visited[p[t]],
    decreases t,
{
    if t > 0 {
        lemma_walk_outside(labels, w, h, visited, p, t - 1);
        let u = t - 1;
        assert(linked(labels, w, h, p[u], p[u + 1]));
        if visited[p[t]] {
            assert(linked(labels, w, h, p[t], p[t - 1]));
        }
    }
}

/// Within a closed visited set, pixels connected to a visited pixel are
/// visited, and pixels connected to an unvisited one are not.
proof fn lemma_connected_visited(labels: Seq<u8>, w: int, h: int, visited: Seq<bool>, s: int, j: int)
    requires
        closed_under_links(labels, w, h, visited),
        visited.len() == w * h,
        0 <= s < w * h,
        connected(labels, w, h, s, j),
    ensures
        visited[j] == visited[s],
{
    let p = choose|p: Seq<int>| #[trigger] is_walk(labels, w, h, p) && p[0] == s && p[p.len() - 1] == j;
    if visited[s] {
        lemma_walk_inside(labels, w, h, visited, p, p.len() - 1);
    } else {
        lemma_walk_outside(labels, w, h, visited, p, p.len() - 1);
    }
}


// ---------------------------------------------------------------------------
// Component statistics

/// Number of the horizontal and vertical neighbors of pixel `j` that carry
/// label `l`, when `l` is not the label of `j` itself.
pub open spec fn border_count(labels: Seq<u8>, w: int, h: int, j: int, l: int) -> int {
    if l == labels[j] {
        0
    } else {
        (if j % w > 0 && labels[j - 1] == l {
            1int
        } else {
            0int
        }) + (if j % w + 1 < w && labels[j + 1] == l {
            1int
        } else {
            0int
        }) + (if j / w > 0 && labels[j - w] == l {
            1int
        } else {
            0int
        }) + (if j / w + 1 < h && labels[j + w] == l {
            1int
        } else {
            0int
        })
    }
}

/// Adds the border count of a pixel for label `l`.
pub open spec fn border_adder(labels: Seq<u8>, w: int, h: int, l: int) -> spec_fn(int, int) -> int {
    |acc: int, j: int| acc + border_count(labels, w, h, j, l)
}

/// Adds one color channel of a pixel.
pub open spec fn channel_adder(pixels: Seq<[u8; 3]>, ch: int) -> spec_fn(int, int) -> int {
    |acc: int, j: int| acc + pixels[j][ch]
}

/// How often the pixels of `c` border a pixel labeled `l`.
pub open spec fn border_support(labels: Seq<u8>, w: int, h: int, c: Set<int>, l: int) -> int {
    c.fold(0int, border_adder(labels, w, h, l))
}

/// Sum of one color channel over the pixels of `c`.
pub open spec fn channel_sum(pixels: Seq<[u8; 3]>, c: Set<int>, ch: int) -> int {
    c.fold(0int, channel_adder(pixels, ch))
}

/// The rounded mean color of the pixels of `c`.
pub open spec fn component_mean(pixels: Seq<[u8; 3]>, c: Set<int>) -> [u8; 3] {
    [
        rounded_mean(channel_sum(pixels, c, 0), c.len() as int) as u8,
        rounded_mean(channel_sum(pixels, c, 1), c.len() as int) as u8,
        rounded_mean(channel_sum(pixels, c, 2), c.len() as int) as u8,
    ]
}

/// Sum of a sequence.
pub open spec fn seq_total(s: Seq<int>) -> int
    decreases s.len(),
{
    if s.len() == 0 {
        0
    } else {
        seq_total(s.drop_last()) + s.last()
    }
}

/// The replacement chosen among the labels below `k`: the label other than
/// `current` with the most support, a later label winning a tie only when it
/// is perceptually strictly closer to `mean`.
pub open spec fn tiny_choice<F: Fn([u8; 3], [u8; 3], [u8; 3]) -> bool>(
    f: F,
    mean: [u8; 3],
    current: int,
    supports: Seq<int>,
    palette: Seq<[u8; 3]>,
    k: int,
) -> Option<int>
    decreases k,
{
    if k <= 0 {
        None
    } else {
        let prev = tiny_choice(f, mean, current, supports, palette, k - 1);
        let l = k - 1;
        if l == current || supports[l] == 0 {
            prev
        } else {
            match prev {
                None => Some(l),
                Some(b) => if supports[l] > supports[b] || (supports[l] == supports[b] && !no_farther(
                    f,
                    mean,
                    palette[b],
                    palette[l],
                )) {
                    Some(l)
                } else {
                    prev
                },
            }
        }
    }
}

/// The replacement for a tiny component is a label other than the current one
/// that borders it, with at least as much support as every other such label;
/// there is none only when no other label borders it.
pub proof fn lemma_tiny_choice_has_most_support<F: Fn([u8; 3], [u8; 3], [u8; 3]) -> bool>(
    f: F,
    mean: [u8; 3],
    current: int,
    supports: Seq<int>,
    palette: Seq<[u8; 3]>,
    k: int,
)
    requires
        k <= supports.len(),
        forall|l: int| 0 <= l < supports.len() ==> #[trigger] supports[l] >= 0,
    ensures
        match tiny_choice(f, mean, current, supports, palette, k) {
            None => forall|l: int| 0 <= l < k && l != current ==> #[trigger] supports[l] == 0,
            Some(r) => {
                &&& 0 <= r < k
                &&& r != current
                &&& supports[r] > 0
                &&& forall|l: int| 0 <= l < k && l != current ==> #[trigger] supports[l] <= supports[r]
            },
        },
    decreases k,
{
    if k > 0 {
        lemma_tiny_choice_has_most_support(f, mean, current, supports, palette, k - 1);
    }
}

/// The label pixel `i` takes in one tiny-component pass: when its component
/// has at most `max_area` pixels and borders some other label, it takes the
/// label that borders it most (`tiny_choice`, compared by the component's
/// mean color), unless the component has more than four pixels and that
/// label covers less than half of its border.
pub open spec fn tiny_label<F: Fn([u8; 3], [u8; 3], [u8; 3]) -> bool>(
    f: F,
    pixels: Seq<[u8; 3]>,
    labels: Seq<u8>,
    palette: Seq<[u8; 3]>,
    w: int,
    h: int,
    max_area: int,
    i: int,
) -> u8 {
    let c = component(labels, w, h, i);
    let current = labels[i];
    if c.len() > max_area {
        current
    } else {
        let supports = Seq::new(palette.len(), |l: int| border_support(labels, w, h, c, l));
        match tiny_choice(f, component_mean(pixels, c), current as int, supports, palette, palette.len() as int) {
            None => current,
            Some(r) => if c.len() > 4 && supports[r] * 2 < seq_total(supports) {
                current
            } else {
                r as u8
            },
        }
    }
}

/// Choose the label a tiny component joins: the bordering label with the most
/// support, ties going to the perceptually closer color (the earlier label
/// when equally close); `None` when nothing else borders it.
pub fn choose_tiny_component_replacement<F: Fn([u8; 3], [u8; 3], [u8; 3]) -> bool>(
    component_mean: [u8; 3],
    current_label: u8,
    boundary_counts: &Vec<u64>,
    palette: &Vec<[u8; 3]>,
    no_farther_fn: &F,
) -> (r: Option<u8>)
    requires
        boundary_counts@.len() <= palette@.len(),
        is_color_order(*no_farther_fn),
    ensures
        r == (match tiny_choice(
            *no_farther_fn,
            component_mean,
            current_label as int,
            boundary_counts@.map_values(|v: u64| v as int),
            palette@,
            boundary_counts@.len() as int,
        ) {
            None => None,
            Some(l) => Some(l as u8),
        }),
        r matches Some(l) ==> (l as int) < boundary_counts@.len(),
        boundary_counts@.len() <= 256 ==> (r matches Some(l) ==> l != current_label && boundary_counts@[l as int] > 0
            && forall|j: int|
            0 <= j < boundary_counts@.len() && j != current_label ==> #[trigger] boundary_counts@[j]
                <= boundary_counts@[l as int]),
        r is None ==> forall|j: int|
            0 <= j < boundary_counts@.len() && j != current_label ==> #[trigger] boundary_counts@[j] == 0,
{
    let ghost supports = boundary_counts@.map_values(|v: u64| v as int);
    let n = boundary_counts.len();
    let mut best: Option<usize> = None;
    let mut best_support: u64 = 0;
    let mut label_index: usize = 0;
    while label_index < n
        invariant
            n == boundary_counts@.len(),
            n <= palette@.len(),
            supports == boundary_counts@.map_values(|v: u64| v as int),
            is_color_order(*no_farther_fn),
            label_index <= n,
            best matches Some(b) ==> b < label_index && best_support == boundary_counts@[b as int] && tiny_choice(
                *no_farther_fn,
                component_mean,
                current_label as int,
                supports,
                palette@,
                label_index as int,
            ) == Some(b as int),
            best is None ==> tiny_choice(*no_farther_fn, component_mean, current_label as int, supports, palette@, label_index as int) is None,
        decreases n - label_index,
    {
        let support = boundary_counts[label_index];
        if label_index != current_label as usize && support != 0 {
            match best {
                None => {
                    best = Some(label_index);
                    best_support = support;
                },
                Some(b) => {
                    if support > best_support || (support == best_support && !ask_no_farther(
                        no_farther_fn,
                        component_mean,
                        palette[b],
                        palette[label_index],
                    )) {
                        best = Some(label_index);
                        best_support = support;
                    }
                },
            }
        }
        label_index += 1;
    }
    proof {
        assert forall|j: int| 0 <= j < supports.len() implies #[trigger] supports[j] >= 0 by {
        }
        lemma_tiny_choice_has_most_support(
            *no_farther_fn,
            component_mean,
            current_label as int,
            supports,
            palette@,
            n as int,
        );
        assert forall|j: int| 0 <= j < boundary_counts@.len() && j != current_label && best is None implies #[trigger] boundary_counts@[j]
            == 0 by {
            assert(supports[j] == boundary_counts@[j] as int);
        }
        if best is Some {
            let b = best->0 as int;
            assert forall|j: int| 0 <= j < boundary_counts@.len() && j != current_label implies #[trigger] boundary_counts@[j]
                <= boundary_counts@[b] by {
                assert(supports[j] == boundary_counts@[j] as int);
                assert(supports[b] == boundary_counts@[b] as int);
            }
            assert(supports[b] == boundary_counts@[b] as int);
        }
    }
    match best {
        None => None,
        Some(b) => Some(b as u8),
    }
}


// ---------------------------------------------------------------------------
// Grid arithmetic

proof fn lemma_coords(i: int, w: int, h: int)
    requires
        0 <= i < w * h,
        0 < w,
    ensures
        0 <= i % w < w,
        0 <= i / w < h,
        i == (i / w) * w + i % w,
{
    vstd::arithmetic::div_mod::lemma_fundamental_div_mod(i, w);
    vstd::arithmetic::div_mod::lemma_mod_bound(i, w);
    vstd::arithmetic::div_mod::lemma_div_pos_is_pos(i, w);
    let q = i / w;
    assert(w * q == q * w) by (nonlinear_arith);
    if q >= h {
        assert(q * w >= h * w) by (nonlinear_arith)
            requires
                q >= h,
                w > 0,
        ;
        assert(w * h == h * w) by (nonlinear_arith);
    }
}

proof fn lemma_from_coords(k: int, w: int, h: int, x: int, y: int)
    requires
        0 <= x < w,
        0 <= y < h,
        k == y * w + x,
    ensures
        k % w == x,
        k / w == y,
        0 <= k < w * h,
{
    vstd::arithmetic::div_mod::lemma_fundamental_div_mod_converse(k, w, y, x);
    assert(0 <= y * w) by (nonlinear_arith)
        requires
            0 <= y,
            0 < w,
    ;
    assert(y * w + x < w * h) by (nonlinear_arith)
        requires
            0 <= x < w,
            0 <= y < h,
    ;
}

/// The grid neighbors of pixel `i` are the pixels just left, right, above and
/// below it that lie inside the image.
proof fn lemma_neighbor_cases(w: int, h: int, i: int, k: int)
    requires
        0 < w,
        0 <= i < w * h,
    ensures
        grid_neighbor(w, h, i, k) <==> ((k == i - 1 && i % w > 0) || (k == i + 1 && i % w + 1 < w) || (k == i - w
            && i / w > 0) || (k == i + w && i / w + 1 < h)),
{
    lemma_coords(i, w, h);
    let x = i % w;
    let y = i / w;
    if k == i - 1 && x > 0 {
        lemma_from_coords(k, w, h, x - 1, y);
    }
    if k == i + 1 && x + 1 < w {
        lemma_from_coords(k, w, h, x + 1, y);
    }
    if k == i - w && y > 0 {
        assert(k == (y - 1) * w + x) by (nonlinear_arith)
            requires
                k == i - w,
                i == y * w + x,
        ;
        lemma_from_coords(k, w, h, x, y - 1);
    }
    if k == i + w && y + 1 < h {
        assert(k == (y + 1) * w + x) by (nonlinear_arith)
            requires
                k == i + w,
                i == y * w + x,
        ;
        lemma_from_coords(k, w, h, x, y + 1);
    }
    if grid_neighbor(w, h, i, k) {
        lemma_coords(k, w, h);
        let kx = k % w;
        let ky = k / w;
        if ky == y + 1 {
            assert(k == i + w) by (nonlinear_arith)
                requires
                    k == ky * w + kx,
                    i == y * w + x,
                    ky == y + 1,
                    kx == x,
            ;
        } else if ky + 1 == y {
            assert(k == i - w) by (nonlinear_arith)
                requires
                    k == ky * w + kx,
                    i == y * w + x,
                    ky + 1 == y,
                    kx == x,
            ;
        }
    }
}


// ---------------------------------------------------------------------------
// Breadth-first exploration

/// The state of a breadth-first exploration from `start`: every queued pixel
/// was newly visited and is connected to `start`, `pos` finds every newly
/// visited pixel in the queue, and pixels visited before stay visited.
pub open spec fn bfs_state(
    labels: Seq<u8>,
    w: int,
    h: int,
    v0: Seq<bool>,
    visited: Seq<bool>,
    queue: Seq<usize>,
    pos: Seq<int>,
    start: int,
) -> bool {
    &&& visited.len() == w * h
    &&& v0.len() == w * h
    &&& pos.len() == w * h
    &&& forall|t: int|
        0 <= t < queue.len() ==> 0 <= #[trigger] queue[t] < w * h && visited[queue[t] as int] && !v0[queue[t] as int]
            && pos[queue[t] as int] == t && connected(labels, w, h, start, queue[t] as int)
    &&& forall|j: int| 0 <= j < w * h && #[trigger] visited[j] && !v0[j] ==> 0 <= pos[j] < queue.len() && queue[pos[j]] == j
    &&& forall|j: int| 0 <= j < w * h && #[trigger] v0[j] ==> visited[j]
}

proof fn lemma_bfs_push(
    labels: Seq<u8>,
    w: int,
    h: int,
    v0: Seq<bool>,
    visited: Seq<bool>,
    queue: Seq<usize>,
    pos: Seq<int>,
    start: int,
    nb: int,
)
    requires
        bfs_state(labels, w, h, v0, visited, queue, pos, start),
        0 <= nb < w * h,
        nb <= usize::MAX,
        !visited[nb],
        connected(labels, w, h, start, nb),
    ensures
        bfs_state(labels, w, h, v0, visited.update(nb, true), queue.push(nb as usize), pos.update(nb, queue.len() as int), start),
{
    let v2 = visited.update(nb, true);
    let q2 = queue.push(nb as usize);
    let p2 = pos.update(nb, queue.len() as int);
    assert forall|t: int| 0 <= t < q2.len() implies 0 <= #[trigger] q2[t] < w * h && v2[q2[t] as int] && !v0[q2[t] as int]
        && p2[q2[t] as int] == t && connected(labels, w, h, start, q2[t] as int) by {
        if t < queue.len() {
            assert(q2[t] == queue[t]);
            assert(visited[queue[t] as int]);
        } else {
            assert(q2[t] as int == nb);
            if v0[nb] {
                assert(visited[nb]);
            }
        }
    }
    assert forall|j: int| 0 <= j < w * h && #[trigger] v2[j] && !v0[j] implies 0 <= p2[j] < q2.len() && q2[p2[j]] == j by {
        if j != nb {
            assert(visited[j]);
        }
    }
    assert forall|j: int| 0 <= j < w * h && #[trigger] v0[j] implies v2[j] by {
        assert(visited[j]);
    }
}

/// Visit a neighbor of a component pixel: a neighbor with the component's
/// label joins the queue unless it was visited already; a neighbor with
/// another label counts as a border of that label while the component is
/// still tracked.
pub fn visit_component_neighbor(
    neighbor_index: usize,
    current_label: u8,
    labels: &Vec<u8>,
    visited: &mut Vec<bool>,
    queue: &mut Vec<usize>,
    track_component: bool,
    boundary_counts: &mut Vec<u64>,
)
    requires
        neighbor_index < labels@.len(),
        old(visited)@.len() == labels@.len(),
        track_component && labels@[neighbor_index as int] != current_label ==> (labels@[neighbor_index as int] as int)
            < old(boundary_counts)@.len() && old(boundary_counts)@[labels@[neighbor_index as int] as int] < u64::MAX,
    ensures
        labels@[neighbor_index as int] == current_label && !old(visited)@[neighbor_index as int] ==> final(visited)@
            == old(visited)@.update(neighbor_index as int, true) && final(queue)@ == old(queue)@.push(neighbor_index),
        !(labels@[neighbor_index as int] == current_label && !old(visited)@[neighbor_index as int]) ==> final(visited)@
            == old(visited)@ && final(queue)@ == old(queue)@,
        track_component && labels@[neighbor_index as int] != current_label ==> final(boundary_counts)@ == old(
            boundary_counts,
        )@.update(
            labels@[neighbor_index as int] as int,
            (old(boundary_counts)@[labels@[neighbor_index as int] as int] + 1) as u64,
        ),
        !(track_component && labels@[neighbor_index as int] != current_label) ==> final(boundary_counts)@ == old(
            boundary_counts,
        )@,
{
    let neighbor_label = labels[neighbor_index];
    if neighbor_label == current_label {
        if !visited[neighbor_index] {
            visited.set(neighbor_index, true);
            queue.push(neighbor_index);
        }
    } else if track_component {
        let l = neighbor_label as usize;
        let c = boundary_counts[l];
        boundary_counts.set(l, c + 1);
    }
}


proof fn lemma_adders_commute(pixels: Seq<[u8; 3]>, labels: Seq<u8>, w: int, h: int)
    ensures
        forall|ch: int| #[trigger] is_fun_commutative(channel_adder(pixels, ch)),
        forall|l: int| #[trigger] is_fun_commutative(border_adder(labels, w, h, l)),
{
    assert forall|ch: int| #[trigger] is_fun_commutative(channel_adder(pixels, ch)) by {
        let f = channel_adder(pixels, ch);
        assert forall|a1: int, a2: int, b: int| #[trigger] f(f(b, a2), a1) == f(f(b, a1), a2) by {
        }
    }
    assert forall|l: int| #[trigger] is_fun_commutative(border_adder(labels, w, h, l)) by {
        let f = border_adder(labels, w, h, l);
        assert forall|a1: int, a2: int, b: int| #[trigger] f(f(b, a2), a1) == f(f(b, a1), a2) by {
        }
    }
}

proof fn lemma_fold_sums_insert(pixels: Seq<[u8; 3]>, labels: Seq<u8>, w: int, h: int, proc: Set<int>, j: int)
    requires
        proc.finite(),
        !proc.contains(j),
    ensures
        forall|ch: int| #[trigger] channel_sum(pixels, proc.insert(j), ch) == channel_sum(pixels, proc, ch) + pixels[j][ch],
        forall|l: int| #[trigger] border_support(labels, w, h, proc.insert(j), l) == border_support(labels, w, h, proc, l)
            + border_count(labels, w, h, j, l),
{
    lemma_adders_commute(pixels, labels, w, h);
    assert forall|ch: int| #[trigger] channel_sum(pixels, proc.insert(j), ch) == channel_sum(pixels, proc, ch) + pixels[j][ch] by {
        vstd::set::fold::lemma_fold_insert(proc, 0int, channel_adder(pixels, ch), j);
    }
    assert forall|l: int| #[trigger] border_support(labels, w, h, proc.insert(j), l) == border_support(labels, w, h, proc, l)
        + border_count(labels, w, h, j, l) by {
        vstd::set::fold::lemma_fold_insert(proc, 0int, border_adder(labels, w, h, l), j);
    }
}

proof fn lemma_fold_sums_empty(pixels: Seq<[u8; 3]>, labels: Seq<u8>, w: int, h: int)
    ensures
        forall|ch: int| #[trigger] channel_sum(pixels, Set::<int>::empty(), ch) == 0,
        forall|l: int| #[trigger] border_support(labels, w, h, Set::<int>::empty(), l) == 0,
{
    assert forall|ch: int| #[trigger] channel_sum(pixels, Set::<int>::empty(), ch) == 0 by {
        vstd::set::fold::lemma_fold_empty(0int, channel_adder(pixels, ch));
    }
    assert forall|l: int| #[trigger] border_support(labels, w, h, Set::<int>::empty(), l) == 0 by {
        vstd::set::fold::lemma_fold_empty(0int, border_adder(labels, w, h, l));
    }
}



/// Visit one neighbor `nb` of the pixel `index` that is being processed,
/// keeping the exploration state.
fn visit_tracked(
    labels: &Vec<u8>,
    w: usize,
    h: usize,
    current_label: u8,
    index: usize,
    nb: usize,
    visited: &mut Vec<bool>,
    queue: &mut Vec<usize>,
    track_component: bool,
    boundary_counts: &mut Vec<u64>,
    v0: Ghost<Seq<bool>>,
    s: Ghost<int>,
    pos: Ghost<Seq<int>>,
    head: Ghost<int>,
) -> (new_pos: Ghost<Seq<int>>)
    requires
        labels@.len() == w * h,
        bfs_state(labels@, w as int, h as int, v0@, old(visited)@, old(queue)@, pos@, s@),
        0 <= s@ < w * h,
        grid_neighbor(w as int, h as int, index as int, nb as int),
        connected(labels@, w as int, h as int, s@, index as int),
        labels@[index as int] == current_label,
        old(queue)@.len() > head@ >= 0,
        track_component && labels@[nb as int] != current_label ==> (labels@[nb as int] as int) < old(
            boundary_counts,
        )@.len() && old(boundary_counts)@[labels@[nb as int] as int] < u64::MAX,
    ensures
        bfs_state(labels@, w as int, h as int, v0@, final(visited)@, final(queue)@, new_pos@, s@),
        final(queue)@.len() >= old(queue)@.len(),
        forall|t: int| 0 <= t < old(queue)@.len() ==> #[trigger] final(queue)@[t] == old(queue)@[t],
        forall|k: int| 0 <= k < w * h && #[trigger] old(visited)@[k] ==> final(visited)@[k],
        labels@[nb as int] == current_label ==> final(visited)@[nb as int],
        forall|j: int| 0 <= j < w * h && #[trigger] old(visited)@[j] && !v0@[j] ==> new_pos@[j] == pos@[j],
        forall|j: int|
            0 <= j < w * h && #[trigger] final(visited)@[j] && !old(visited)@[j] ==> new_pos@[j] >= old(queue)@.len(),
        track_component && labels@[nb as int] != current_label ==> final(boundary_counts)@ == old(
            boundary_counts,
        )@.update(labels@[nb as int] as int, (old(boundary_counts)@[labels@[nb as int] as int] + 1) as u64),
        !(track_component && labels@[nb as int] != current_label) ==> final(boundary_counts)@ == old(
            boundary_counts,
        )@,
{
    let ghost q0 = queue@;
    let ghost vis0 = visited@;
    proof {
        if labels@[nb as int] == current_label {
            lemma_connected_step(labels@, w as int, h as int, s@, index as int, nb as int);
        }
    }
    visit_component_neighbor(nb, current_label, labels, visited, queue, track_component, boundary_counts);
    let ghost mut p = pos@;
    proof {
        if queue@.len() > q0.len() {
            lemma_bfs_push(labels@, w as int, h as int, v0@, vis0, q0, pos@, s@, nb as int);
            p = pos@.update(nb as int, q0.len() as int);
        }
    }
    Ghost(p)
}

/// The state of the exploration loop after `head` pixels were processed.
spec fn explore_inv(
    lab: Seq<u8>,
    w: int,
    h: int,
    pixels: Seq<[u8; 3]>,
    palette_len: int,
    max_area: int,
    v0: Seq<bool>,
    s: int,
    visited: Seq<bool>,
    queue: Seq<usize>,
    pos: Seq<int>,
    proc: Set<int>,
    head: int,
    track: bool,
    acc: PaletteAccumulator,
    boundary: Seq<u64>,
) -> bool {
    &&& lab.len() == w * h
    &&& pixels.len() == w * h
    &&& w * h <= u32::MAX
    &&& w > 0
    &&& 0 <= s < w * h
    &&& labels_in_palette(lab, palette_len)
    &&& closed_under_links(lab, w, h, v0)
    &&& !v0[s]
    &&& vstd::set_lib::set_int_range(0, w * h).len() == w * h
    &&& vstd::set_lib::set_int_range(0, w * h).finite()
    &&& bfs_state(lab, w, h, v0, visited, queue, pos, s)
    &&& queue.len() >= 1
    &&& queue[0] as int == s
    &&& 0 <= head <= queue.len()
    &&& forall|t: int, k: int| 0 <= t < head && #[trigger] linked(lab, w, h, queue[t] as int, k) ==> visited[k]
    &&& proc.finite()
    &&& proc.len() == head
    &&& forall|j: int| #[trigger] proc.contains(j) <==> (0 <= j < w * h && visited[j] && !v0[j] && pos[j] < head)
    &&& track == (head <= max_area)
    &&& track ==> acc.wf() && acc.spec_count() == head && acc.spec_sums() == (
        channel_sum(pixels, proc, 0),
        channel_sum(pixels, proc, 1),
        channel_sum(pixels, proc, 2),
    )
    &&& boundary.len() == palette_len
    &&& forall|l: int| 0 <= l < palette_len ==> #[trigger] boundary[l] <= 4 * head
    &&& track ==> forall|l: int| 0 <= l < palette_len ==> #[trigger] boundary[l] == border_support(lab, w, h, proc, l)
}

/// Process the next queued pixel of the exploration.
#[verifier::rlimit(40)]
fn explore_step(
    pixels: &Vec<[u8; 3]>,
    labels: &Vec<u8>,
    w: usize,
    h: usize,
    palette_len: usize,
    max_area: usize,
    current_label: u8,
    visited: &mut Vec<bool>,
    queue: &mut Vec<usize>,
    head: usize,
    track_component: bool,
    accumulator: &mut PaletteAccumulator,
    boundary_counts: &mut Vec<u64>,
    v0: Ghost<Seq<bool>>,
    s: Ghost<int>,
    pos: Ghost<Seq<int>>,
    proc: Ghost<Set<int>>,
) -> (r: (bool, Ghost<Seq<int>>, Ghost<Set<int>>))
    requires
        explore_inv(
            labels@,
            w as int,
            h as int,
            pixels@,
            palette_len as int,
            max_area as int,
            v0@,
            s@,
            old(visited)@,
            old(queue)@,
            pos@,
            proc@,
            head as int,
            track_component,
            *old(accumulator),
            old(boundary_counts)@,
        ),
        current_label == labels@[s@],
        head < old(queue)@.len(),
    ensures
        explore_inv(
            labels@,
            w as int,
            h as int,
            pixels@,
            palette_len as int,
            max_area as int,
            v0@,
            s@,
            final(visited)@,
            final(queue)@,
            r.1@,
            r.2@,
            head + 1,
            r.0,
            *final(accumulator),
            final(boundary_counts)@,
        ),
{
    let ghost lw = w as int;
    let ghost lh = h as int;
    let ghost n = w * h;
    let ghost lab = labels@;
    let index = queue[head];
    let ghost old_proc = proc@;
    let ghost new_proc = proc@.insert(index as int);
    proof {
        assert(0 <= index < n && visited@[index as int] && !v0@[index as int] && pos@[index as int] == head);
        assert(!old_proc.contains(index as int));
        assert(new_proc.subset_of(vstd::set_lib::set_int_range(0, n)));
        vstd::set_lib::lemma_len_subset(new_proc, vstd::set_lib::set_int_range(0, n));
        lemma_fold_sums_insert(pixels@, lab, lw, lh, old_proc, index as int);
        lemma_connected_label(lab, lw, lh, s@, index as int);
    }
    let next_head = head + 1;
    let mut track = track_component;
    if track {
        accumulator.push(pixels[index]);
        if next_head > max_area {
            track = false;
        }
    }
    let x = index % w;
    let y = index / w;
    proof {
        lemma_coords(index as int, lw, lh);
    }
    let ghost vis_start = visited@;
    let ghost q_start = queue@;
    let ghost b_start = boundary_counts@;
    let ghost mut p = pos@;
    if x > 0 {
        proof {
            lemma_neighbor_cases(lw, lh, index as int, index - 1);
        }
        let Ghost(p2) = visit_tracked(labels, w, h, current_label, index, index - 1, visited, queue, track, boundary_counts, v0, s, Ghost(p), Ghost(head as int));
        proof { p = p2; }
    }
    let ghost b_left = boundary_counts@;
    if x + 1 < w {
        proof {
            lemma_neighbor_cases(lw, lh, index as int, index + 1);
        }
        let Ghost(p2) = visit_tracked(labels, w, h, current_label, index, index + 1, visited, queue, track, boundary_counts, v0, s, Ghost(p), Ghost(head as int));
        proof { p = p2; }
    }
    let ghost b_right = boundary_counts@;
    if y > 0 {
        proof {
            assert(index >= w) by (nonlinear_arith)
                requires
                    index == y * w + x,
                    y > 0,
                    x >= 0,
            ;
            lemma_neighbor_cases(lw, lh, index as int, index - w);
        }
        let Ghost(p2) = visit_tracked(labels, w, h, current_label, index, index - w, visited, queue, track, boundary_counts, v0, s, Ghost(p), Ghost(head as int));
        proof { p = p2; }
    }
    let ghost b_up = boundary_counts@;
    if y + 1 < h {
        proof {
            assert(index + w < w * h) by (nonlinear_arith)
                requires
                    index == y * w + x,
                    y + 1 < h,
                    x < w,
            ;
            lemma_neighbor_cases(lw, lh, index as int, index + w);
        }
        let Ghost(p2) = visit_tracked(labels, w, h, current_label, index, index + w, visited, queue, track, boundary_counts, v0, s, Ghost(p), Ghost(head as int));
        proof { p = p2; }
    }
    proof {
        let i = index as int;
        assert forall|l: int| 0 <= l < palette_len implies #[trigger] boundary_counts@[l] == b_start[l] + if track {
            border_count(lab, lw, lh, i, l)
        } else {
            0int
        } by {
        }
        assert forall|k: int| #[trigger] linked(lab, lw, lh, i, k) implies visited@[k] by {
            lemma_neighbor_cases(lw, lh, i, k);
        }
        assert forall|t: int, k: int| 0 <= t < head + 1 && #[trigger] linked(lab, lw, lh, queue@[t] as int, k) implies visited@[k] by {
            if t < head {
                assert(q_start[t] == queue@[t]);
                assert(vis_start[k]);
            }
        }
        assert forall|j: int| #[trigger] new_proc.contains(j) <==> (0 <= j < n && visited@[j] && !v0@[j] && p[j] < head + 1) by {
            if 0 <= j < n && visited@[j] && !v0@[j] && !vis_start[j] {
                assert(p[j] >= q_start.len());
            }
        }
    }
    (track, Ghost(p), Ghost(new_proc))
}

/// Explore the component of `start` breadth-first, marking its pixels
/// visited. Returns its pixels in visiting order, its area, and, when the area
/// is at most `max_area`, its color sums and its border counts per label.
fn explore_component(
    pixels: &Vec<[u8; 3]>,
    labels: &Vec<u8>,
    w: usize,
    h: usize,
    palette_len: usize,
    max_area: usize,
    start: usize,
    visited: &mut Vec<bool>,
) -> (r: (Vec<usize>, usize, PaletteAccumulator, Vec<u64>))
    requires
        labels@.len() == w * h,
        pixels@.len() == labels@.len(),
        labels@.len() <= u32::MAX,
        w > 0,
        labels_in_palette(labels@, palette_len as int),
        old(visited)@.len() == w * h,
        closed_under_links(labels@, w as int, h as int, old(visited)@),
        start < w * h,
        !old(visited)@[start as int],
    ensures
        final(visited)@.len() == w * h,
        forall|j: int|
            0 <= j < w * h ==> #[trigger] final(visited)@[j] == (old(visited)@[j] || connected(
                labels@,
                w as int,
                h as int,
                start as int,
                j,
            )),
        closed_under_links(labels@, w as int, h as int, final(visited)@),
        component(labels@, w as int, h as int, start as int).finite(),
        r.1 == component(labels@, w as int, h as int, start as int).len(),
        forall|t: int|
            0 <= t < r.0@.len() ==> component(labels@, w as int, h as int, start as int).contains(#[trigger] r.0@[t] as int),
        forall|j: int|
            #[trigger] component(labels@, w as int, h as int, start as int).contains(j) ==> 0 <= j < w * h
                && r.0@.contains(j as usize),
        r.1 <= max_area ==> r.2.wf() && r.2.spec_count() == r.1 && r.2.spec_sums() == (
            channel_sum(pixels@, component(labels@, w as int, h as int, start as int), 0),
            channel_sum(pixels@, component(labels@, w as int, h as int, start as int), 1),
            channel_sum(pixels@, component(labels@, w as int, h as int, start as int), 2),
        ),
        r.3@.len() == palette_len,
        forall|l: int| 0 <= l < palette_len ==> #[trigger] r.3@[l] <= 4 * r.1,
        r.1 >= 1,
        r.1 <= w * h,
        r.1 <= max_area ==> forall|l: int|
            0 <= l < palette_len ==> #[trigger] r.3@[l] == border_support(
                labels@,
                w as int,
                h as int,
                component(labels@, w as int, h as int, start as int),
                l,
            ),
{
    let ghost lw = w as int;
    let ghost lh = h as int;
    let ghost n = w * h;
    let ghost v0 = visited@;
    let ghost s = start as int;
    let ghost lab = labels@;
    let current_label = labels[start];
    let mut queue: Vec<usize> = Vec::new();
    queue.push(start);
    visited.set(start, true);
    let ghost mut pos: Seq<int> = Seq::new(n as nat, |j: int| 0int);
    let ghost mut proc: Set<int> = Set::empty();
    let mut boundary_counts: Vec<u64> = Vec::new();
    let mut t: usize = 0;
    while t < palette_len
        invariant
            t <= palette_len,
            boundary_counts@.len() == t,
            forall|l: int| 0 <= l < t ==> boundary_counts@[l] == 0,
        decreases palette_len - t,
    {
        boundary_counts.push(0);
        t += 1;
    }
    let mut accumulator = PaletteAccumulator::new();
    let mut track_component = true;
    let mut head: usize = 0;
    proof {
        lemma_connected_self(lab, lw, lh, s);
        assert(bfs_state(lab, lw, lh, v0, visited@, queue@, pos, s)) by {
            assert forall|j: int| 0 <= j < n && #[trigger] visited@[j] && !v0[j] implies 0 <= pos[j] < queue@.len()
                && queue@[pos[j]] == j by {
                assert(j == s);
            }
        }
        lemma_fold_sums_empty(pixels@, lab, lw, lh);
        vstd::set_lib::lemma_int_range(0, n);
    }
    while head < queue.len()
        invariant
            lw == w as int,
            lh == h as int,
            n == w * h,
            lab == labels@,
            s == start as int,
            current_label == lab[s],
            explore_inv(
                lab,
                lw,
                lh,
                pixels@,
                palette_len as int,
                max_area as int,
                v0,
                s,
                visited@,
                queue@,
                pos,
                proc,
                head as int,
                track_component,
                accumulator,
                boundary_counts@,
            ),
        decreases n - head,
    {
        proof {
            vstd::set_lib::lemma_len_subset(proc.insert(queue@[head as int] as int), vstd::set_lib::set_int_range(0, n));
        }
        let (track, Ghost(p2), Ghost(proc2)) = explore_step(
            pixels,
            labels,
            w,
            h,
            palette_len,
            max_area,
            current_label,
            visited,
            &mut queue,
            head,
            track_component,
            &mut accumulator,
            &mut boundary_counts,
            Ghost(v0),
            Ghost(s),
            Ghost(pos),
            Ghost(proc),
        );
        proof {
            pos = p2;
            proc = proc2;
        }
        track_component = track;
        head += 1;
    }
    let ghost comp = component(lab, lw, lh, s);
    proof {
        assert forall|i: int, k: int| 0 <= i < visited@.len() && visited@[i] && #[trigger] linked(lab, lw, lh, i, k) implies visited@[k] by {
            if v0[i] {
                assert(v0[k]);
            } else {
                let t = pos[i];
                assert(queue@[t] as int == i);
                assert(linked(lab, lw, lh, queue@[t] as int, k));
            }
        }
        assert forall|j: int| #[trigger] proc.contains(j) == comp.contains(j) by {
            if comp.contains(j) {
                lemma_connected_label(lab, lw, lh, s, j);
                lemma_connected_visited(lab, lw, lh, visited@, s, j);
                lemma_connected_visited(lab, lw, lh, v0, s, j);
            }
            if proc.contains(j) {
                let t = pos[j];
                assert(queue@[t] as int == j);
            }
        }
        assert(proc =~= comp);
        assert(proc.subset_of(vstd::set_lib::set_int_range(0, n)));
        vstd::set_lib::lemma_len_subset(proc, vstd::set_lib::set_int_range(0, n));
        assert forall|j: int| 0 <= j < n implies #[trigger] visited@[j] == (v0[j] || connected(lab, lw, lh, s, j)) by {
            if connected(lab, lw, lh, s, j) {
                assert(comp.contains(j));
            }
            if visited@[j] && !v0[j] {
                assert(proc.contains(j));
            }
        }
        assert forall|t: int| 0 <= t < queue@.len() implies comp.contains(#[trigger] queue@[t] as int) by {
        }
        assert forall|j: int| #[trigger] comp.contains(j) implies 0 <= j < n && queue@.contains(j as usize) by {
            assert(proc.contains(j));
            assert(queue@[pos[j]] == j as usize);
        }
    }
    (queue, head, accumulator, boundary_counts)
}



proof fn lemma_tiny_choice_props<F: Fn([u8; 3], [u8; 3], [u8; 3]) -> bool>(
    f: F,
    mean: [u8; 3],
    current: int,
    supports: Seq<int>,
    palette: Seq<[u8; 3]>,
    k: int,
)
    ensures
        tiny_choice(f, mean, current, supports, palette, k) matches Some(c) ==> 0 <= c < k && c != current
            && supports[c] != 0,
    decreases k,
{
    if k > 0 {
        lemma_tiny_choice_props(f, mean, current, supports, palette, k - 1);
    }
}

proof fn lemma_border_support_foreign(labels: Seq<u8>, w: int, h: int, c: Set<int>, l: int)
    requires
        c.finite(),
        l >= 256,
    ensures
        border_support(labels, w, h, c, l) == 0,
    decreases c.len(),
{
    if c.len() == 0 {
        assert(c =~= Set::<int>::empty());
        lemma_fold_sums_empty(Seq::<[u8; 3]>::empty(), labels, w, h);
    } else {
        let a = c.choose();
        assert(c.contains(a));
        let rest = c.remove(a);
        lemma_border_support_foreign(labels, w, h, rest, l);
        lemma_fold_sums_insert(Seq::<[u8; 3]>::empty(), labels, w, h, rest, a);
        assert(rest.insert(a) =~= c);
    }
}

/// One tiny-component pass: every pixel takes its `tiny_label`, computed from
/// the labels before the pass.
pub open spec fn tiny_pass<F: Fn([u8; 3], [u8; 3], [u8; 3]) -> bool>(
    f: F,
    pixels: Seq<[u8; 3]>,
    labels: Seq<u8>,
    palette: Seq<[u8; 3]>,
    w: int,
    h: int,
    max_area: int,
) -> Seq<u8> {
    Seq::new(labels.len(), |i: int| tiny_label(f, pixels, labels, palette, w, h, max_area, i))
}

/// `k` tiny-component passes in a row.
pub open spec fn tiny_passes<F: Fn([u8; 3], [u8; 3], [u8; 3]) -> bool>(
    f: F,
    pixels: Seq<[u8; 3]>,
    labels: Seq<u8>,
    palette: Seq<[u8; 3]>,
    w: int,
    h: int,
    max_area: int,
    k: nat,
) -> Seq<u8>
    decreases k,
{
    if k == 0 {
        labels
    } else {
        tiny_passes(f, pixels, tiny_pass(f, pixels, labels, palette, w, h, max_area), palette, w, h, max_area, (k - 1) as nat)
    }
}

/// Whether the tiny-component cleanup runs at all: a positive area limit, a
/// palette of at least two colors, one pixel color per label, and an image of
/// at least two by two.
pub open spec fn tiny_cleanup_applies(pixels_len: int, labels_len: int, palette_len: int, w: int, h: int, max_area: int) -> bool {
    max_area > 0 && palette_len >= 2 && labels_len == pixels_len && w >= 2 && h >= 2
}

/// The label map after tiny-component cleanup: two passes when it applies,
/// the labels unchanged otherwise.
pub open spec fn spec_cleanup_tiny_components<F: Fn([u8; 3], [u8; 3], [u8; 3]) -> bool>(
    f: F,
    pixels: Seq<[u8; 3]>,
    labels: Seq<u8>,
    palette: Seq<[u8; 3]>,
    w: int,
    h: int,
    max_area: int,
) -> Seq<u8> {
    if tiny_cleanup_applies(pixels.len() as int, labels.len() as int, palette.len() as int, w, h, max_area) {
        tiny_passes(f, pixels, labels, palette, w, h, max_area, 2)
    } else {
        labels
    }
}

proof fn lemma_tiny_fixed<F: Fn([u8; 3], [u8; 3], [u8; 3]) -> bool>(
    f: F,
    pixels: Seq<[u8; 3]>,
    labels: Seq<u8>,
    palette: Seq<[u8; 3]>,
    w: int,
    h: int,
    max_area: int,
    k: nat,
)
    requires
        tiny_pass(f, pixels, labels, palette, w, h, max_area) == labels,
    ensures
        tiny_passes(f, pixels, labels, palette, w, h, max_area, k) == labels,
    decreases k,
{
    if k > 0 {
        lemma_tiny_fixed(f, pixels, labels, palette, w, h, max_area, (k - 1) as nat);
    }
}

/// A label map on which a tiny-component pass changes nothing comes out of
/// the tiny-component cleanup unchanged.
pub proof fn lemma_tiny_cleanup_keeps_settled_labels<F: Fn([u8; 3], [u8; 3], [u8; 3]) -> bool>(
    f: F,
    pixels: Seq<[u8; 3]>,
    labels: Seq<u8>,
    palette: Seq<[u8; 3]>,
    w: int,
    h: int,
    max_area: int,
)
    requires
        tiny_pass(f, pixels, labels, palette, w, h, max_area) == labels,
    ensures
        spec_cleanup_tiny_components(f, pixels, labels, palette, w, h, max_area) == labels,
{
    lemma_tiny_fixed(f, pixels, labels, palette, w, h, max_area, 2);
}

proof fn lemma_seq_total_step(s: Seq<int>, k: int)
    requires
        0 <= k < s.len(),
    ensures
        seq_total(s.subrange(0, k + 1)) == seq_total(s.subrange(0, k)) + s[k],
{
    assert(s.subrange(0, k + 1).drop_last() =~= s.subrange(0, k));
}

/// The label every pixel of the component of `start` takes in this pass, when
/// it changes: the pixels of the component and the new label.
fn tiny_component_change<F: Fn([u8; 3], [u8; 3], [u8; 3]) -> bool>(
    pixels: &Vec<[u8; 3]>,
    labels: &Vec<u8>,
    palette: &Vec<[u8; 3]>,
    w: usize,
    h: usize,
    max_area: usize,
    start: usize,
    visited: &mut Vec<bool>,
    no_farther_fn: &F,
) -> (r: (Vec<usize>, Option<u8>))
    requires
        labels@.len() == w * h,
        pixels@.len() == labels@.len(),
        labels@.len() <= u32::MAX,
        w > 0,
        labels_in_palette(labels@, palette@.len() as int),
        old(visited)@.len() == w * h,
        closed_under_links(labels@, w as int, h as int, old(visited)@),
        start < w * h,
        !old(visited)@[start as int],
        is_color_order(*no_farther_fn),
    ensures
        final(visited)@.len() == w * h,
        forall|j: int|
            0 <= j < w * h ==> #[trigger] final(visited)@[j] == (old(visited)@[j] || connected(
                labels@,
                w as int,
                h as int,
                start as int,
                j,
            )),
        closed_under_links(labels@, w as int, h as int, final(visited)@),
        forall|t: int|
            0 <= t < r.0@.len() ==> component(labels@, w as int, h as int, start as int).contains(#[trigger] r.0@[t] as int),
        forall|j: int|
            #[trigger] component(labels@, w as int, h as int, start as int).contains(j) ==> 0 <= j < w * h
                && r.0@.contains(j as usize),
        r.1 is None ==> tiny_label(*no_farther_fn, pixels@, labels@, palette@, w as int, h as int, max_area as int, start as int)
            == labels@[start as int],
        r.1 matches Some(l) ==> tiny_label(
            *no_farther_fn,
            pixels@,
            labels@,
            palette@,
            w as int,
            h as int,
            max_area as int,
            start as int,
        ) == l && (l as int) < palette@.len() && l != labels@[start as int],
{
    let ghost lw = w as int;
    let ghost lh = h as int;
    let ghost comp = component(labels@, lw, lh, start as int);
    let current_label = labels[start];
    let (component_pixels, component_area, accumulator, boundary_counts) = explore_component(
        pixels,
        labels,
        w,
        h,
        palette.len(),
        max_area,
        start,
        visited,
    );
    proof {
        lemma_connected_self(labels@, lw, lh, start as int);
        assert(comp.contains(start as int));
    }
    if component_area > max_area {
        proof {
            assert(comp.len() > max_area);
        }
        return (component_pixels, None);
    }
    let component_mean = accumulator.average_or(palette[current_label as usize]);
    let ghost supports = Seq::new(palette@.len(), |l: int| border_support(labels@, lw, lh, comp, l));
    proof {
        assert(component_mean == crate::components::component_mean(pixels@, comp));
        assert(boundary_counts@.map_values(|v: u64| v as int) =~= supports);
    }
    let replacement = choose_tiny_component_replacement(
        component_mean,
        current_label,
        &boundary_counts,
        palette,
        no_farther_fn,
    );
    let ghost mean_spec = crate::components::component_mean(pixels@, comp);
    let ghost choice = tiny_choice(*no_farther_fn, mean_spec, current_label as int, supports, palette@, palette@.len() as int);
    proof {
        assert(tiny_label(*no_farther_fn, pixels@, labels@, palette@, lw, lh, max_area as int, start as int) == match choice {
            None => current_label,
            Some(r) => if comp.len() > 4 && supports[r] * 2 < seq_total(supports) {
                current_label
            } else {
                r as u8
            },
        });
    }
    proof {
        lemma_tiny_choice_props(*no_farther_fn, mean_spec, current_label as int, supports, palette@, palette@.len() as int);
        if let Some(c) = choice {
            if c >= 256 {
                lemma_border_support_foreign(labels@, lw, lh, comp, c);
            }
        }
    }
    match replacement {
        None => (component_pixels, None),
        Some(r) => {
            let dominant_boundary = boundary_counts[r as usize] as u128;
            let n = boundary_counts.len();
            let mut boundary_total: u128 = 0;
            let mut k: usize = 0;
            while k < n
                invariant
                    n == boundary_counts@.len(),
                    n == palette@.len(),
                    supports == boundary_counts@.map_values(|v: u64| v as int),
                    forall|l: int| 0 <= l < n ==> #[trigger] boundary_counts@[l] <= 4 * component_area,
                    component_area <= u32::MAX,
                    k <= n,
                    boundary_total == seq_total(supports.subrange(0, k as int)),
                    boundary_total <= k * 4 * component_area,
                decreases n - k,
            {
                proof {
                    lemma_seq_total_step(supports, k as int);
                    assert((k + 1) * 4 * component_area == k * 4 * component_area + 4 * component_area) by (nonlinear_arith);
                    assert(k * 4 * component_area <= 0x1_0000_0000_0000_0000 * 4 * 0xffff_ffff) by (nonlinear_arith)
                        requires
                            k <= usize::MAX,
                            component_area <= 0xffff_ffff,
                            usize::MAX <= 0xffff_ffff_ffff_ffff,
                    ;
                }
                boundary_total = boundary_total + boundary_counts[k] as u128;
                k += 1;
            }
            proof {
                assert(supports.subrange(0, n as int) =~= supports);
            }
            if component_area > 4 && dominant_boundary * 2 < boundary_total {
                return (component_pixels, None);
            }
            (component_pixels, Some(r))
        },
    }
}

/// One tiny-component pass over the label map, and whether any label changed.
fn tiny_component_pass<F: Fn([u8; 3], [u8; 3], [u8; 3]) -> bool>(
    pixels: &Vec<[u8; 3]>,
    labels: &Vec<u8>,
    palette: &Vec<[u8; 3]>,
    w: usize,
    h: usize,
    max_area: usize,
    no_farther_fn: &F,
) -> (r: (Vec<u8>, bool))
    requires
        labels@.len() == w * h,
        pixels@.len() == labels@.len(),
        labels@.len() <= u32::MAX,
        w > 0,
        labels_in_palette(labels@, palette@.len() as int),
        is_color_order(*no_farther_fn),
    ensures
        r.0@ == tiny_pass(*no_farther_fn, pixels@, labels@, palette@, w as int, h as int, max_area as int),
        !r.1 ==> r.0@ == labels@,
        labels_in_palette(r.0@, palette@.len() as int),
{
    let ghost lw = w as int;
    let ghost lh = h as int;
    let ghost lab = labels@;
    let n = labels.len();
    let mut visited: Vec<bool> = Vec::new();
    let mut next: Vec<u8> = Vec::new();
    let mut i: usize = 0;
    while i < n
        invariant
            n == labels@.len(),
            i <= n,
            visited@.len() == i,
            forall|j: int| 0 <= j < i ==> !visited@[j],
            next@ == labels@.subrange(0, i as int),
        decreases n - i,
    {
        visited.push(false);
        next.push(labels[i]);
        i += 1;
    }
    let mut changed = false;
    let mut start: usize = 0;
    while start < n
        invariant
            lw == w as int,
            lh == h as int,
            lab == labels@,
            n == labels@.len(),
            labels@.len() == w * h,
            pixels@.len() == labels@.len(),
            labels@.len() <= u32::MAX,
            w > 0,
            labels_in_palette(labels@, palette@.len() as int),
            is_color_order(*no_farther_fn),
            start <= n,
            visited@.len() == n,
            next@.len() == n,
            closed_under_links(lab, lw, lh, visited@),
            forall|j: int| 0 <= j < start ==> #[trigger] visited@[j],
            forall|j: int|
                0 <= j < n && #[trigger] visited@[j] ==> next@[j] == tiny_label(
                    *no_farther_fn,
                    pixels@,
                    lab,
                    palette@,
                    lw,
                    lh,
                    max_area as int,
                    j,
                ),
            forall|j: int| 0 <= j < n && !(#[trigger] visited@[j]) ==> next@[j] == lab[j],
            !changed ==> next@ == lab,
            labels_in_palette(next@, palette@.len() as int),
        decreases n - start,
    {
        if !visited[start] {
            proof {
                lemma_connected_self(lab, lw, lh, start as int);
                assert forall|i: int, j: int| 0 <= i < visited@.len() && visited@[i] && #[trigger] linked(lab, lw, lh, i, j) implies visited@[j] by {
                }
            }
            let ghost vis_before = visited@;
            let ghost comp = component(lab, lw, lh, start as int);
            let (component_pixels, change) = tiny_component_change(
                pixels,
                labels,
                palette,
                w,
                h,
                max_area,
                start,
                &mut visited,
                no_farther_fn,
            );
            proof {
                // every pixel of the component takes the label of the start pixel
                assert forall|j: int| #[trigger] comp.contains(j) implies tiny_label(
                    *no_farther_fn,
                    pixels@,
                    lab,
                    palette@,
                    lw,
                    lh,
                    max_area as int,
                    j,
                ) == tiny_label(*no_farther_fn, pixels@, lab, palette@, lw, lh, max_area as int, start as int)
                    && lab[j] == lab[start as int] && !vis_before[j] by {
                    lemma_same_component(lab, lw, lh, start as int, j);
                    lemma_connected_label(lab, lw, lh, start as int, j);
                    lemma_connected_visited(lab, lw, lh, vis_before, start as int, j);
                }
            }
            match change {
                None => {
                    proof {
                        assert forall|j: int| 0 <= j < n && #[trigger] visited@[j] implies next@[j] == tiny_label(
                            *no_farther_fn,
                            pixels@,
                            lab,
                            palette@,
                            lw,
                            lh,
                            max_area as int,
                            j,
                        ) by {
                            if !vis_before[j] {
                                assert(comp.contains(j));
                            }
                        }
                    }
                },
                Some(replacement) => {
                    let ghost next_before = next@;
                    let m = component_pixels.len();
                    let mut t: usize = 0;
                    while t < m
                        invariant
                            m == component_pixels@.len(),
                            t <= m,
                            next@.len() == n,
                            n == lab.len(),
                            forall|u: int| 0 <= u < m ==> comp.contains(#[trigger] component_pixels@[u] as int),
                            forall|j: int| #[trigger] comp.contains(j) ==> 0 <= j < n,
                            forall|u: int| 0 <= u < t ==> next@[#[trigger] component_pixels@[u] as int] == replacement,
                            forall|j: int| 0 <= j < n && !comp.contains(j) ==> #[trigger] next@[j] == next_before[j],
                            forall|j: int| 0 <= j < n && comp.contains(j) ==> (#[trigger] next@[j] == next_before[j] || next@[j] == replacement),
                        decreases m - t,
                    {
                        let q = component_pixels[t];
                        next.set(q, replacement);
                        t += 1;
                    }
                    changed = true;
                    proof {
                        assert forall|j: int| #[trigger] comp.contains(j) implies next@[j] == replacement by {
                            assert(component_pixels@.contains(j as usize));
                            let u = choose|u: int| 0 <= u < m && component_pixels@[u] == j as usize;
                            assert(next@[component_pixels@[u] as int] == replacement);
                        }
                        assert forall|j: int| 0 <= j < n && #[trigger] visited@[j] implies next@[j] == tiny_label(
                            *no_farther_fn,
                            pixels@,
                            lab,
                            palette@,
                            lw,
                            lh,
                            max_area as int,
                            j,
                        ) by {
                            if !vis_before[j] {
                                assert(comp.contains(j));
                            } else {
                                assert(!comp.contains(j));
                            }
                        }
                        assert forall|j: int| 0 <= j < n && !(#[trigger] visited@[j]) implies next@[j] == lab[j] by {
                            assert(!comp.contains(j));
                        }
                    }
                },
            }
        }
        start += 1;
    }
    proof {
        assert forall|j: int| 0 <= j < n implies #[trigger] next@[j] == tiny_pass(
            *no_farther_fn,
            pixels@,
            lab,
            palette@,
            lw,
            lh,
            max_area as int,
        )[j] by {
            assert(visited@[j]);
        }
        assert(next@ =~= tiny_pass(*no_farther_fn, pixels@, lab, palette@, lw, lh, max_area as int));
    }
    (next, changed)
}

/// Reassign tiny label islands: over up to two passes, every 4-connected
/// single-label region of at most `max_component_area` pixels joins the label
/// that borders it most (see `tiny_label`). Nothing happens for an area limit
/// of zero, palettes of fewer than two colors, images smaller than two by
/// two, or when the pixel and label counts differ.
pub fn cleanup_tiny_label_components<F: Fn([u8; 3], [u8; 3], [u8; 3]) -> bool>(
    pixels: &Vec<[u8; 3]>,
    labels: &mut Vec<u8>,
    palette: &Vec<[u8; 3]>,
    width: u32,
    height: u32,
    max_component_area: usize,
    no_farther_fn: &F,
)
    requires
        is_color_order(*no_farther_fn),
        tiny_cleanup_applies(
            pixels@.len() as int,
            old(labels)@.len() as int,
            palette@.len() as int,
            width as int,
            height as int,
            max_component_area as int,
        ) ==> old(labels)@.len() == width * height && old(labels)@.len() <= u32::MAX && labels_in_palette(
            old(labels)@,
            palette@.len() as int,
        ),
    ensures
        final(labels)@.len() == old(labels)@.len(),
        labels_in_palette(old(labels)@, palette@.len() as int) ==> labels_in_palette(final(labels)@, palette@.len() as int),
        final(labels)@ == spec_cleanup_tiny_components(
            *no_farther_fn,
            pixels@,
            old(labels)@,
            palette@,
            width as int,
            height as int,
            max_component_area as int,
        ),
{
    if max_component_area == 0 || palette.len() < 2 || labels.len() != pixels.len() || width < 2 || height < 2 {
        return;
    }
    let w = width as usize;
    let h = height as usize;
    let ghost l0 = labels@;
    let mut pass: usize = 0;
    while pass < 2
        invariant
            is_color_order(*no_farther_fn),
            w == width,
            h == height,
            w >= 2,
            labels@.len() == l0.len(),
            l0.len() == w * h,
            l0.len() <= u32::MAX,
            pixels@.len() == l0.len(),
            labels_in_palette(labels@, palette@.len() as int),
            pass <= 2,
            tiny_passes(*no_farther_fn, pixels@, l0, palette@, w as int, h as int, max_component_area as int, 2)
                == tiny_passes(
                *no_farther_fn,
                pixels@,
                labels@,
                palette@,
                w as int,
                h as int,
                max_component_area as int,
                (2 - pass) as nat,
            ),
        ensures
            labels_in_palette(labels@, palette@.len() as int),
            labels@.len() == l0.len(),
            labels@ == tiny_passes(*no_farther_fn, pixels@, l0, palette@, w as int, h as int, max_component_area as int, 2),
        decreases 2 - pass,
    {
        let (next, changed) = tiny_component_pass(pixels, labels, palette, w, h, max_component_area, no_farther_fn);
        if !changed {
            proof {
                lemma_tiny_fixed(
                    *no_farther_fn,
                    pixels@,
                    labels@,
                    palette@,
                    w as int,
                    h as int,
                    max_component_area as int,
                    (2 - pass) as nat,
                );
            }
            break;
        }
        *labels = next;
        pass += 1;
    }
}

} // verus!
