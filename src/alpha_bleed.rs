//! Alpha bleeding: fully transparent pixels next to visible ones take on the
//! average colour of their already coloured neighbours, ring by ring, so
//! that filtering a composited atlas does not pull in black fringes.

use vstd::prelude::*;

use std::collections::VecDeque;

use crate::image::{lemma_with_pixel, Image, ImageModel, Pixel};

verus! {

/// Whether two distinct positions touch, sides or corners.
pub open spec fn adjacent(p: (int, int), q: (int, int)) -> bool {
    p != q && -1 <= p.0 - q.0 <= 1 && -1 <= p.1 - q.1 <= 1
}

pub open spec fn visible(img: ImageModel, p: (int, int)) -> bool {
    img.in_bounds(p.0, p.1) && img.pixel(p.0, p.1).a != 0
}

pub open spec fn transparent(img: ImageModel, p: (int, int)) -> bool {
    img.in_bounds(p.0, p.1) && img.pixel(p.0, p.1).a == 0
}

/// A path that bleeding can follow: it starts at a visible pixel and steps
/// from neighbour to neighbour through fully transparent pixels only.
pub open spec fn bleed_path(img: ImageModel, path: Seq<(int, int)>) -> bool {
    &&& path.len() >= 2
    &&& visible(img, path[0])
    &&& forall|i: int| 1 <= i < path.len() ==> transparent(img, #[trigger] path[i])
    &&& forall|i: int| 0 <= i < path.len() - 1 ==> adjacent(#[trigger] path[i], path[i + 1])
}

/// Whether a bleeding path leads to the pixel at `p`.
pub open spec fn reached(img: ImageModel, p: (int, int)) -> bool {
    exists|path: Seq<(int, int)>| bleed_path(img, path) && path.last() == p
}

/// The offset of the `d`-th of the eight neighbours, going round from the
/// right.
pub open spec fn direction(d: int) -> (int, int) {
    if d == 0 {
        (1, 0)
    } else if d == 1 {
        (1, 1)
    } else if d == 2 {
        (0, 1)
    } else if d == 3 {
        (-1, 1)
    } else if d == 4 {
        (-1, 0)
    } else if d == 5 {
        (-1, -1)
    } else if d == 6 {
        (0, -1)
    } else {
        (1, -1)
    }
}

/// The number of cells of a mask that are not set.
pub open spec fn count_unset(s: Seq<bool>) -> nat
    decreases s.len(),
{
    if s.len() == 0 {
        0
    } else {
        count_unset(s.drop_last()) + if s.last() {
            0nat
        } else {
            1nat
        }
    }
}

proof fn lemma_count_unset_update(s: Seq<bool>, i: int)
    requires
        0 <= i < s.len(),
        !s[i],
    ensures
        count_unset(s.update(i, true)) + 1 == count_unset(s),
    decreases s.len(),
{
    if i < s.len() - 1 {
        assert(s.update(i, true).drop_last() =~= s.drop_last().update(i, true));
        lemma_count_unset_update(s.drop_last(), i);
    } else {
        assert(s.update(i, true).drop_last() =~= s.drop_last());
    }
}

/// A width by height grid of flags.
struct Mask2 {
    size: (u32, u32),
    data: Vec<bool>,
}

impl Mask2 {
    spec fn well_formed(&self) -> bool {
        self.data@.len() == self.size.0 * self.size.1
    }

    spec fn at(&self, x: int, y: int) -> bool {
        self.data@[x + y * self.size.0]
    }

    fn new(w: u32, h: u32) -> (r: Mask2)
        requires
            w * h <= usize::MAX,
        ensures
            r.well_formed(),
            r.size == (w, h),
            forall|x: int, y: int| 0 <= x < w && 0 <= y < h ==> !#[trigger] r.at(x, y),
            count_unset(r.data@) == w * h,
            r.data@ == Seq::new((w * h) as nat, |i: int| false),
    {
        let n = w as usize * h as usize;
        let data: Vec<bool> = vec![false; n];
        proof {
            assert forall|x: int, y: int| 0 <= x < w && 0 <= y < h implies !#[trigger] data@[x + y * w] by {
                lemma_cell(w as int, h as int, x, y, x, y);
            }
            lemma_count_all_unset(data@);
            assert(data@ =~= Seq::new((w * h) as nat, |i: int| false));
        }
        Mask2 { size: (w, h), data }
    }

    fn get(&self, x: u32, y: u32) -> (r: bool)
        requires
            self.well_formed(),
            x < self.size.0,
            y < self.size.1,
        ensures
            r == self.at(x as int, y as int),
    {
        proof {
            lemma_cell(self.size.0 as int, self.size.1 as int, x as int, y as int, x as int, y as int);
        }
        // Asking for the length brings in that it fits in `usize`.
        let _cells = self.data.len();
        let row_start = y as usize * self.size.0 as usize;
        self.data[x as usize + row_start]
    }

    fn set(&mut self, x: u32, y: u32)
        requires
            old(self).well_formed(),
            x < old(self).size.0,
            y < old(self).size.1,
        ensures
            final(self).well_formed(),
            final(self).size == old(self).size,
            final(self).at(x as int, y as int),
            forall|x2: int, y2: int|
                0 <= x2 < old(self).size.0 && 0 <= y2 < old(self).size.1 && (x2, y2) != (x as int, y as int)
                    ==> #[trigger] final(self).at(x2, y2) == old(self).at(x2, y2),
            !old(self).at(x as int, y as int) ==> count_unset(final(self).data@) + 1 == count_unset(
                old(self).data@,
            ),
            old(self).at(x as int, y as int) ==> final(self).data@ == old(self).data@,
            final(self).data@ == old(self).data@.update(x + y * old(self).size.0, true),
    {
        let ghost w = self.size.0 as int;
        let ghost h = self.size.1 as int;
        proof {
            lemma_cell(w, h, x as int, y as int, x as int, y as int);
            if !self.at(x as int, y as int) {
                lemma_count_unset_update(self.data@, x + y * w);
            } else {
                assert(self.data@.update(x + y * w, true) =~= self.data@);
            }
        }
        // Asking for the length brings in that it fits in `usize`.
        let _cells = self.data.len();
        let row_start = y as usize * self.size.0 as usize;
        self.data.set(x as usize + row_start, true);
        proof {
            assert forall|x2: int, y2: int|
                0 <= x2 < w && 0 <= y2 < h && (x2, y2) != (x as int, y as int) implies #[trigger] self.at(x2, y2)
                == old(self).at(x2, y2) by {
                lemma_cell(w, h, x as int, y as int, x2, y2);
                lemma_cell(w, h, x2, y2, x as int, y as int);
            }
        }
    }
}

proof fn lemma_count_all_unset(s: Seq<bool>)
    requires
        forall|i: int| 0 <= i < s.len() ==> !s[i],
    ensures
        count_unset(s) == s.len(),
    decreases s.len(),
{
    if s.len() > 0 {
        lemma_count_all_unset(s.drop_last());
    }
}

/// Cells of a grid map to distinct indices inside the grid.
proof fn lemma_cell(w: int, h: int, x1: int, y1: int, x2: int, y2: int)
    requires
        0 <= x1 < w,
        0 <= y1 < h,
        0 <= x2 < w,
        0 <= y2 < h,
    ensures
        0 <= x1 + y1 * w < w * h,
        0 <= y1 * w,
        (x1, y1) != (x2, y2) ==> x1 + y1 * w != x2 + y2 * w,
{
    assert(0 <= x1 + y1 * w < w * h && 0 <= y1 * w) by (nonlinear_arith)
        requires
            0 <= x1 < w,
            0 <= y1 < h,
    ;
    if y1 < y2 {
        assert(x1 + y1 * w < x2 + y2 * w) by (nonlinear_arith)
            requires
                0 <= x1 < w,
                0 <= x2,
                y1 < y2,
        ;
    } else if y2 < y1 {
        assert(x2 + y2 * w < x1 + y1 * w) by (nonlinear_arith)
            requires
                0 <= x2 < w,
                0 <= x1,
                y2 < y1,
        ;
    }
}

/// The `d`-th neighbour of `(x, y)` when it lies inside a `w` by `h` image.
fn neighbor(x: u32, y: u32, d: usize, w: u32, h: u32) -> (r: Option<(u32, u32)>)
    requires
        x < w,
        y < h,
        d < 8,
    ensures
        r matches Some(n) ==> n.0 < w && n.1 < h && (n.0 as int, n.1 as int) == (x + direction(d as int).0, y
            + direction(d as int).1),
        r is None ==> !(0 <= x + direction(d as int).0 < w && 0 <= y + direction(d as int).1 < h),
{
    let (dx, dy): (i64, i64) = if d == 0 {
        (1, 0)
    } else if d == 1 {
        (1, 1)
    } else if d == 2 {
        (0, 1)
    } else if d == 3 {
        (-1, 1)
    } else if d == 4 {
        (-1, 0)
    } else if d == 5 {
        (-1, -1)
    } else if d == 6 {
        (0, -1)
    } else {
        (1, -1)
    };
    let nx = x as i64 + dx;
    let ny = y as i64 + dy;
    if nx < 0 || ny < 0 || nx >= w as i64 || ny >= h as i64 {
        None
    } else {
        Some((nx as u32, ny as u32))
    }
}

/// Every neighbour of a pixel is one of the eight directions.
proof fn lemma_adjacent_direction(p: (int, int), q: (int, int)) -> (d: int)
    requires
        adjacent(p, q),
    ensures
        0 <= d < 8,
        q == (p.0 + direction(d).0, p.1 + direction(d).1),
{
    let dx = q.0 - p.0;
    let dy = q.1 - p.1;
    if dx == 1 && dy == 0 {
        0
    } else if dx == 1 && dy == 1 {
        1
    } else if dx == 0 && dy == 1 {
        2
    } else if dx == -1 && dy == 1 {
        3
    } else if dx == -1 && dy == 0 {
        4
    } else if dx == -1 && dy == -1 {
        5
    } else if dx == 0 && dy == -1 {
        6
    } else {
        7
    }
}

/// Whether any of the eight neighbours of `(x, y)` is visible.
fn borders_visible(img: &Image, x: u32, y: u32, w: u32, h: u32) -> (r: bool)
    requires
        img@.well_formed(),
        img@.size == (w, h),
        x < w,
        y < h,
    ensures
        r ==> exists|q: (int, int)| visible(img@, q) && adjacent(q, (x as int, y as int)),
        r == any_visible_neighbor(img@, (x as int, y as int), 0),
{
    let mut d: usize = 0;
    while d < 8
        invariant
            img@.well_formed(),
            img@.size == (w, h),
            x < w,
            y < h,
            0 <= d <= 8,
            any_visible_neighbor(img@, (x as int, y as int), d as int) == any_visible_neighbor(
                img@,
                (x as int, y as int),
                0,
            ),
        decreases 8 - d,
    {
        if let Some(n) = neighbor(x, y, d, w, h) {
            if img.get_pixel(n).a != 0 {
                assert(visible(img@, (n.0 as int, n.1 as int)));
                assert(adjacent((n.0 as int, n.1 as int), (x as int, y as int)));
                return true;
            }
        }
        d = d + 1;
    }
    false
}

/// The neighbour of `p` in direction `d`.
pub open spec fn step_to(p: (int, int), d: int) -> (int, int) {
    (p.0 + direction(d).0, p.1 + direction(d).1)
}

pub open spec fn in_grid(size: (u32, u32), p: (int, int)) -> bool {
    0 <= p.0 < size.0 && 0 <= p.1 < size.1
}

pub open spec fn grid_index(size: (u32, u32), p: (int, int)) -> int {
    p.0 + p.1 * size.0
}

pub open spec fn pos(q: (u32, u32)) -> (int, int) {
    (q.0 as int, q.1 as int)
}

pub open spec fn positions(q: Seq<(u32, u32)>) -> Seq<(int, int)> {
    q.map_values(|e: (u32, u32)| pos(e))
}

/// Whether one of the neighbours of `p` in directions `d` and later is
/// visible.
pub open spec fn any_visible_neighbor(img: ImageModel, p: (int, int), d: int) -> bool
    decreases 8 - d,
{
    if d >= 8 {
        false
    } else {
        visible(img, step_to(p, d)) || any_visible_neighbor(img, p, d + 1)
    }
}

/// Which pixels have been queued or are visible, and the queue of pixels to
/// bleed, in order.
pub struct Frontier {
    pub visited: Seq<bool>,
    pub queue: Seq<(u32, u32)>,
}

/// The first scan, at pixel `(x, y)`: visible pixels are marked, and
/// transparent pixels next to a visible one are marked and queued.
pub open spec fn scan_cell(img: ImageModel, f: Frontier, x: int, y: int) -> Frontier {
    let i = grid_index(img.size, (x, y));
    if visible(img, (x, y)) {
        Frontier { visited: f.visited.update(i, true), queue: f.queue }
    } else if any_visible_neighbor(img, (x, y), 0) {
        Frontier { visited: f.visited.update(i, true), queue: f.queue.push((x as u32, y as u32)) }
    } else {
        f
    }
}

/// The first scan over the first `x` pixels of row `y`.
pub open spec fn scan_row(img: ImageModel, f: Frontier, y: int, x: int) -> Frontier
    decreases x,
{
    if x <= 0 {
        f
    } else {
        scan_cell(img, scan_row(img, f, y, x - 1), x - 1, y)
    }
}

/// The first scan over the first `y` rows.
pub open spec fn scan_rows(img: ImageModel, y: int) -> Frontier
    decreases y,
{
    if y <= 0 {
        Frontier { visited: Seq::new((img.size.0 * img.size.1) as nat, |i: int| false), queue: Seq::empty() }
    } else {
        scan_row(img, scan_rows(img, y - 1), y - 1, img.size.0 as int)
    }
}

pub open spec fn initial_frontier(img: ImageModel) -> Frontier {
    scan_rows(img, img.size.1 as int)
}

/// Queues the neighbours of `p` in directions `d` and later that are inside
/// the grid and not marked yet, marking them.
pub open spec fn expand(size: (u32, u32), f: Frontier, p: (int, int), d: int) -> Frontier
    decreases 8 - d,
{
    if d >= 8 {
        f
    } else {
        let n = step_to(p, d);
        if in_grid(size, n) && !f.visited[grid_index(size, n)] {
            expand(
                size,
                Frontier { visited: f.visited.update(grid_index(size, n), true), queue: f.queue.push((n.0 as u32, n.1 as u32)) },
                p,
                d + 1,
            )
        } else {
            expand(size, f, p, d + 1)
        }
    }
}

/// What is left to do: unmarked pixels and queued pixels not yet handled.
pub open spec fn remaining(f: Frontier, head: int) -> int {
    count_unset(f.visited) + f.queue.len() - head
}

/// Handles queued pixels from `head` on, at most `fuel` of them.
pub open spec fn run(size: (u32, u32), f: Frontier, head: int, fuel: nat) -> Frontier
    decreases fuel,
{
    if fuel == 0 || head < 0 || head >= f.queue.len() {
        f
    } else {
        run(size, expand(size, f, pos(f.queue[head]), 0), head + 1, (fuel - 1) as nat)
    }
}

/// The order in which bleeding handles the transparent pixels of `img`. It
/// depends on the size and on which pixels are visible, nothing else.
pub open spec fn schedule(img: ImageModel) -> Seq<(u32, u32)> {
    let f = initial_frontier(img);
    run(img.size, f, 0, remaining(f, 0) as nat).queue
}

/// Whether pixel `n` may be sampled when the `t`-th scheduled pixel is bled:
/// it is visible, or it was bled before.
pub open spec fn sampled(orig: ImageModel, sched: Seq<(u32, u32)>, t: int, n: (int, int)) -> bool {
    visible(orig, n) || positions(sched).subrange(0, t).contains(n)
}

pub open spec fn channel(px: Pixel, c: int) -> int {
    if c == 0 {
        px.r as int
    } else if c == 1 {
        px.g as int
    } else {
        px.b as int
    }
}

/// The sum of channel `c` over the sampled neighbours of `p` in directions
/// `d` and later.
pub open spec fn neighbor_sum(
    img: ImageModel,
    orig: ImageModel,
    sched: Seq<(u32, u32)>,
    t: int,
    p: (int, int),
    c: int,
    d: int,
) -> int
    decreases 8 - d,
{
    if d >= 8 {
        0
    } else {
        let n = step_to(p, d);
        (if in_grid(orig.size, n) && sampled(orig, sched, t, n) {
            channel(img.pixel(n.0, n.1), c)
        } else {
            0
        }) + neighbor_sum(img, orig, sched, t, p, c, d + 1)
    }
}

/// How many neighbours of `p` in directions `d` and later are sampled.
pub open spec fn neighbor_count(orig: ImageModel, sched: Seq<(u32, u32)>, t: int, p: (int, int), d: int) -> int
    decreases 8 - d,
{
    if d >= 8 {
        0
    } else {
        (if in_grid(orig.size, step_to(p, d)) && sampled(orig, sched, t, step_to(p, d)) {
            1int
        } else {
            0
        }) + neighbor_count(orig, sched, t, p, d + 1)
    }
}

/// The value that bleeding gives the `t`-th scheduled pixel, reading the
/// colours of its sampled neighbours in `img`: their average colour, with
/// alpha zero.
pub open spec fn bled_pixel(img: ImageModel, orig: ImageModel, sched: Seq<(u32, u32)>, t: int) -> Pixel {
    let p = pos(sched[t]);
    let k = neighbor_count(orig, sched, t, p, 0);
    Pixel {
        r: (neighbor_sum(img, orig, sched, t, p, 0, 0) / k) as u8,
        g: (neighbor_sum(img, orig, sched, t, p, 1, 0) / k) as u8,
        b: (neighbor_sum(img, orig, sched, t, p, 2, 0) / k) as u8,
        a: 0,
    }
}

/// `out` is what bleeding makes of `orig`: same size and alpha, visible
/// pixels kept, every scheduled pixel the average of its sampled neighbours
/// as they are in `out`, and every other pixel kept.
pub open spec fn bled_from(orig: ImageModel, out: ImageModel) -> bool {
    let sched = schedule(orig);
    &&& out.well_formed()
    &&& out.size == orig.size
    &&& forall|x: int, y: int| orig.in_bounds(x, y) ==> (#[trigger] out.pixel(x, y)).a == orig.pixel(x, y).a
    &&& forall|x: int, y: int| visible(orig, (x, y)) ==> #[trigger] out.pixel(x, y) == orig.pixel(x, y)
    &&& forall|t: int|
        0 <= t < sched.len() ==> out.pixel(#[trigger] sched[t].0 as int, sched[t].1 as int) == bled_pixel(
            out,
            orig,
            sched,
            t,
        )
    &&& forall|x: int, y: int|
        orig.in_bounds(x, y) && !visible(orig, (x, y)) && !positions(sched).contains((x, y))
            ==> #[trigger] out.pixel(x, y) == orig.pixel(x, y)
}

/// A transparent neighbour of a visible or reached pixel is reached.
proof fn lemma_reach_step(img: ImageModel, p: (int, int), n: (int, int))
    requires
        visible(img, p) || (transparent(img, p) && reached(img, p)),
        transparent(img, n),
        adjacent(p, n),
    ensures
        reached(img, n),
{
    if visible(img, p) {
        let path = seq![p, n];
        assert(bleed_path(img, path));
        assert(path.last() == n);
    } else {
        let path = choose|path: Seq<(int, int)>| bleed_path(img, path) && path.last() == p;
        let longer = path.push(n);
        assert forall|i: int| 1 <= i < longer.len() implies transparent(img, #[trigger] longer[i]) by {
            if i < path.len() {
                assert(longer[i] == path[i]);
            }
        }
        assert forall|i: int| 0 <= i < longer.len() - 1 implies adjacent(#[trigger] longer[i], longer[i + 1]) by {
            if i < path.len() - 1 {
                assert(longer[i] == path[i] && longer[i + 1] == path[i + 1]);
            }
        }
        assert(bleed_path(img, longer));
        assert(longer.last() == n);
    }
}

proof fn lemma_average_fits(sum: u32, count: u32)
    requires
        sum <= 255 * count,
        count > 0,
    ensures
        sum / count <= 255,
{
    assert(sum / count <= 255) by (nonlinear_arith)
        requires
            sum <= 255 * count,
            count > 0,
    ;
}

proof fn lemma_contains_push<A>(s: Seq<A>, a: A, c: A)
    ensures
        s.push(a).contains(c) <==> (s.contains(c) || c == a),
{
    if s.push(a).contains(c) {
        let i = choose|i: int| 0 <= i < s.push(a).len() && s.push(a)[i] == c;
        if i < s.len() {
            assert(s[i] == c);
        }
    }
    if s.contains(c) {
        let i = choose|i: int| 0 <= i < s.len() && s[i] == c;
        assert(s.push(a)[i] == c);
    }
    if c == a {
        assert(s.push(a)[s.len() as int] == c);
    }
}

proof fn lemma_positions_push(q: Seq<(u32, u32)>, e: (u32, u32))
    ensures
        positions(q.push(e)) == positions(q).push(pos(e)),
        forall|c: (int, int)| #[trigger] positions(q.push(e)).contains(c) <==> (positions(q).contains(c) || c == pos(e)),
{
    assert(positions(q.push(e)) =~= positions(q).push(pos(e)));
    assert forall|c: (int, int)| #[trigger] positions(q.push(e)).contains(c) implies (positions(q).contains(c) || c
        == pos(e)) by {
        let i = choose|i: int| 0 <= i < positions(q.push(e)).len() && positions(q.push(e))[i] == c;
        if i < q.len() {
            assert(positions(q)[i] == c);
        }
    }
    assert forall|c: (int, int)| positions(q).contains(c) || c == pos(e) implies #[trigger] positions(
        q.push(e),
    ).contains(c) by {
        if c == pos(e) {
            assert(positions(q.push(e))[q.len() as int] == c);
        } else {
            let i = choose|i: int| 0 <= i < positions(q).len() && positions(q)[i] == c;
            assert(positions(q.push(e))[i] == c);
        }
    }
}

/// What is sampled for the `t`-th pixel depends only on the schedule before
/// it, so it is the same for any schedule that starts the same way.
proof fn lemma_bled_pixel_prefix(img: ImageModel, orig: ImageModel, q0: Seq<(u32, u32)>, q1: Seq<(u32, u32)>, t: int)
    requires
        0 <= t < q0.len() <= q1.len(),
        q1.subrange(0, q0.len() as int) == q0,
    ensures
        bled_pixel(img, orig, q1, t) == bled_pixel(img, orig, q0, t),
{
    assert(positions(q0).subrange(0, t) =~= positions(q1).subrange(0, t)) by {
        assert forall|i: int| 0 <= i < t implies positions(q0)[i] == positions(q1)[i] by {
            assert(q1.subrange(0, q0.len() as int)[i] == q1[i]);
        }
    }
    assert(q1[t] == q0[t]) by {
        assert(q1.subrange(0, q0.len() as int)[t] == q1[t]);
    }
    let p = pos(q0[t]);
    lemma_neighbor_prefix_from(img, orig, q0, q1, t, p, 0, 0);
    lemma_neighbor_prefix_from(img, orig, q0, q1, t, p, 1, 0);
    lemma_neighbor_prefix_from(img, orig, q0, q1, t, p, 2, 0);
}

proof fn lemma_neighbor_prefix_from(
    img: ImageModel,
    orig: ImageModel,
    q0: Seq<(u32, u32)>,
    q1: Seq<(u32, u32)>,
    t: int,
    p: (int, int),
    c: int,
    d: int,
)
    requires
        positions(q0).subrange(0, t) == positions(q1).subrange(0, t),
    ensures
        neighbor_sum(img, orig, q0, t, p, c, d) == neighbor_sum(img, orig, q1, t, p, c, d),
        neighbor_count(orig, q0, t, p, d) == neighbor_count(orig, q1, t, p, d),
    decreases 8 - d,
{
    if d < 8 {
        lemma_neighbor_prefix_from(img, orig, q0, q1, t, p, c, d + 1);
    }
}

/// The sums over sampled neighbours read only sampled pixels.
proof fn lemma_neighbor_sum_frame(
    img1: ImageModel,
    img2: ImageModel,
    orig: ImageModel,
    sched: Seq<(u32, u32)>,
    t: int,
    p: (int, int),
    c: int,
    d: int,
)
    requires
        forall|n: (int, int)|
            in_grid(orig.size, n) && sampled(orig, sched, t, n) ==> #[trigger] img1.pixel(n.0, n.1) == img2.pixel(
                n.0,
                n.1,
            ),
    ensures
        neighbor_sum(img1, orig, sched, t, p, c, d) == neighbor_sum(img2, orig, sched, t, p, c, d),
    decreases 8 - d,
{
    if d < 8 {
        let n = step_to(p, d);
        if in_grid(orig.size, n) && sampled(orig, sched, t, n) {
            assert(img1.pixel(n.0, n.1) == img2.pixel(n.0, n.1));
        }
        lemma_neighbor_sum_frame(img1, img2, orig, sched, t, p, c, d + 1);
    }
}

proof fn lemma_bled_pixel_frame(img1: ImageModel, img2: ImageModel, orig: ImageModel, sched: Seq<(u32, u32)>, t: int)
    requires
        forall|n: (int, int)|
            in_grid(orig.size, n) && sampled(orig, sched, t, n) ==> #[trigger] img1.pixel(n.0, n.1) == img2.pixel(
                n.0,
                n.1,
            ),
    ensures
        bled_pixel(img1, orig, sched, t) == bled_pixel(img2, orig, sched, t),
{
    let p = pos(sched[t]);
    lemma_neighbor_sum_frame(img1, img2, orig, sched, t, p, 0, 0);
    lemma_neighbor_sum_frame(img1, img2, orig, sched, t, p, 1, 0);
    lemma_neighbor_sum_frame(img1, img2, orig, sched, t, p, 2, 0);
}

/// The parent of a queued pixel: inside the image, already sampleable, and
/// next to the queued pixel.
spec fn parent_ready(can: Mask2, orig: ImageModel, par: (int, int), q: (int, int)) -> bool {
    &&& orig.in_bounds(par.0, par.1)
    &&& can.at(par.0, par.1)
    &&& adjacent(par, q)
}

/// Bleeds the colours of visible pixels into the fully transparent pixels
/// around them, breadth first. A transparent pixel next to a visible one, or
/// next to one bled before it, takes the average colour of its neighbours
/// that are visible or already bled, and keeps alpha zero. Visible pixels,
/// every alpha value, and transparent pixels that no bleeding path reaches
/// are left as they were.
pub fn alpha_bleed(img: &mut Image)
    requires
        old(img)@.well_formed(),
    ensures
        bled_from(old(img)@, final(img)@),
        forall|x: int, y: int|
            old(img)@.in_bounds(x, y) && !reached(old(img)@, (x, y)) ==> #[trigger] final(img)@.pixel(x, y)
                == old(img)@.pixel(x, y),
{
    let (w, h) = img.size();
    let ghost orig = img@;
    let ghost size = (w, h);
    assert(w * h <= usize::MAX);
    let mut can_be_sampled = Mask2::new(w, h);
    let mut visited = Mask2::new(w, h);
    let mut to_visit: VecDeque<(u32, u32)> = VecDeque::new();
    let ghost mut visit_order: Seq<(u32, u32)> = Seq::empty();
    let ghost mut parents: Seq<(int, int)> = Seq::empty();
    proof {
        assert(visited.data@ == scan_rows(orig, 0).visited);
    }

    let mut y: u32 = 0;
    while y < h
        invariant
            0 <= y <= h,
            img@ == orig,
            orig.well_formed(),
            orig.size == (w, h),
            can_be_sampled.well_formed(),
            can_be_sampled.size == (w, h),
            visited.well_formed(),
            visited.size == (w, h),
            (Frontier { visited: visited.data@, queue: visit_order }) == scan_rows(orig, y as int),
            to_visit@ == visit_order,
            forall|cx: int, cy: int|
                0 <= cx < w && 0 <= cy < h ==> (#[trigger] can_be_sampled.at(cx, cy) <==> (cy < y && visible(
                    orig,
                    (cx, cy),
                ))),
            forall|cx: int, cy: int|
                0 <= cx < w && 0 <= cy < h ==> (#[trigger] visited.at(cx, cy) <==> ((cy < y && visible(orig, (cx, cy)))
                    || positions(visit_order).contains((cx, cy)))),
            forall|cx: int, cy: int|
                0 <= cx < w && 0 <= cy < h && #[trigger] visited.at(cx, cy) && transparent(orig, (cx, cy)) ==> reached(
                    orig,
                    (cx, cy),
                ),
            parents.len() == visit_order.len(),
            forall|i: int, j: int| 0 <= i < j < visit_order.len() ==> visit_order[i] != visit_order[j],
            forall|i: int|
                0 <= i < visit_order.len() ==> {
                    let q = (#[trigger] visit_order[i].0 as int, visit_order[i].1 as int);
                    &&& q.1 < y
                    &&& transparent(orig, q)
                    &&& visible(orig, parents[i])
                    &&& adjacent(parents[i], q)
                },
        decreases h - y,
    {
        let mut x: u32 = 0;
        while x < w
            invariant
                0 <= x <= w,
                0 <= y < h,
                img@ == orig,
                orig.well_formed(),
                orig.size == (w, h),
                can_be_sampled.well_formed(),
                can_be_sampled.size == (w, h),
                visited.well_formed(),
                visited.size == (w, h),
                to_visit@ == visit_order,
                (Frontier { visited: visited.data@, queue: visit_order }) == scan_row(
                    orig,
                    scan_rows(orig, y as int),
                    y as int,
                    x as int,
                ),
                forall|cx: int, cy: int|
                    0 <= cx < w && 0 <= cy < h ==> (#[trigger] can_be_sampled.at(cx, cy) <==> ((cy < y || (cy == y
                        && cx < x)) && visible(orig, (cx, cy)))),
                forall|cx: int, cy: int|
                    0 <= cx < w && 0 <= cy < h ==> (#[trigger] visited.at(cx, cy) <==> (((cy < y || (cy == y && cx
                        < x)) && visible(orig, (cx, cy))) || positions(visit_order).contains((cx, cy)))),
                forall|cx: int, cy: int|
                    0 <= cx < w && 0 <= cy < h && #[trigger] visited.at(cx, cy) && transparent(orig, (cx, cy))
                        ==> reached(orig, (cx, cy)),
                parents.len() == visit_order.len(),
                forall|i: int, j: int| 0 <= i < j < visit_order.len() ==> visit_order[i] != visit_order[j],
                forall|i: int|
                    0 <= i < visit_order.len() ==> {
                        let q = (#[trigger] visit_order[i].0 as int, visit_order[i].1 as int);
                        &&& (q.1 < y || (q.1 == y && q.0 < x))
                        &&& transparent(orig, q)
                        &&& visible(orig, parents[i])
                        &&& adjacent(parents[i], q)
                    },
            decreases w - x,
        {
            let ghost q_before = visit_order;
            proof {
                lemma_positions_push(visit_order, (x, y));
                lemma_cell(w as int, h as int, x as int, y as int, x as int, y as int);
                assert(!positions(visit_order).contains((x as int, y as int))) by {
                    if positions(visit_order).contains((x as int, y as int)) {
                        let i = choose|i: int| 0 <= i < positions(visit_order).len() && positions(visit_order)[i] == (
                        x as int, y as int);
                        assert(visit_order[i].0 as int == x);
                    }
                }
            }
            let pixel = img.get_pixel((x, y));
            if pixel.a != 0 {
                can_be_sampled.set(x, y);
                visited.set(x, y);
            } else if borders_visible(img, x, y, w, h) {
                let ghost q = choose|q: (int, int)| visible(orig, q) && adjacent(q, (x as int, y as int));
                proof {
                    lemma_reach_step(orig, q, (x as int, y as int));
                }
                visited.set(x, y);
                to_visit.push_back((x, y));
                proof {
                    visit_order = visit_order.push((x, y));
                    parents = parents.push(q);
                    assert(visit_order == q_before.push((x, y)));
                }
            }
            x = x + 1;
        }
        y = y + 1;
    }

    let ghost start = Frontier { visited: visited.data@, queue: visit_order };
    proof {
        assert(start == initial_frontier(orig));
        assert forall|i: int| 0 <= i < visit_order.len() implies parent_ready(
            can_be_sampled,
            orig,
            parents[i],
            pos(#[trigger] visit_order[i]),
        ) && transparent(orig, pos(visit_order[i])) by {
            let q = (visit_order[i].0 as int, visit_order[i].1 as int);
            assert(transparent(orig, q));
            assert(parents[i] == (parents[i].0, parents[i].1));
            assert(visible(orig, parents[i]));
            assert(can_be_sampled.at(parents[i].0, parents[i].1));
        }
        assert forall|cx: int, cy: int| 0 <= cx < w && 0 <= cy < h && #[trigger] can_be_sampled.at(cx, cy)
            implies visited.at(cx, cy) by {}
        assert forall|cx: int, cy: int| 0 <= cx < w && 0 <= cy < h implies (#[trigger] can_be_sampled.at(cx, cy)
            <==> sampled(orig, visit_order, 0, (cx, cy))) by {
            assert(positions(visit_order).subrange(0, 0) =~= Seq::<(int, int)>::empty());
        }
    }
    let ghost mut head: int = 0;
    while to_visit.len() > 0
        invariant
            0 <= head <= visit_order.len(),
            to_visit@ == visit_order.subrange(head, visit_order.len() as int),
            start == initial_frontier(orig),
            run(size, Frontier { visited: visited.data@, queue: visit_order }, head, remaining(
                Frontier { visited: visited.data@, queue: visit_order },
                head,
            ) as nat) == run(size, start, 0, remaining(start, 0) as nat),
            size == (w, h),
            img@.well_formed(),
            img@.size == (w, h),
            orig.size == (w, h),
            can_be_sampled.well_formed(),
            can_be_sampled.size == (w, h),
            visited.well_formed(),
            visited.size == (w, h),
            forall|cx: int, cy: int|
                orig.in_bounds(cx, cy) ==> (#[trigger] img@.pixel(cx, cy)).a == orig.pixel(cx, cy).a,
            forall|cx: int, cy: int|
                visible(orig, (cx, cy)) ==> #[trigger] img@.pixel(cx, cy) == orig.pixel(cx, cy),
            forall|cx: int, cy: int|
                orig.in_bounds(cx, cy) && !visited.at(cx, cy) ==> #[trigger] img@.pixel(cx, cy) == orig.pixel(cx, cy),
            forall|cx: int, cy: int|
                0 <= cx < w && 0 <= cy < h ==> (#[trigger] visited.at(cx, cy) <==> (visible(orig, (cx, cy))
                    || positions(visit_order).contains((cx, cy)))),
            forall|cx: int, cy: int|
                0 <= cx < w && 0 <= cy < h ==> (#[trigger] can_be_sampled.at(cx, cy) <==> sampled(
                    orig,
                    visit_order,
                    head,
                    (cx, cy),
                )),
            forall|cx: int, cy: int|
                0 <= cx < w && 0 <= cy < h && #[trigger] visited.at(cx, cy) && transparent(orig, (cx, cy)) ==> reached(
                    orig,
                    (cx, cy),
                ),
            forall|i: int, j: int| 0 <= i < j < visit_order.len() ==> visit_order[i] != visit_order[j],
            forall|t: int|
                0 <= t < head ==> img@.pixel(#[trigger] visit_order[t].0 as int, visit_order[t].1 as int) == bled_pixel(
                    img@,
                    orig,
                    visit_order,
                    t,
                ),
            parents.len() == visit_order.len(),
            forall|i: int|
                head <= i < visit_order.len() ==> parent_ready(can_be_sampled, orig, parents[i], pos(#[trigger] visit_order[i])),
            forall|i: int|
                0 <= i < visit_order.len() ==> transparent(orig, pos(#[trigger] visit_order[i])),
            forall|cx: int, cy: int|
                0 <= cx < w && 0 <= cy < h && #[trigger] can_be_sampled.at(cx, cy) ==> visited.at(cx, cy),
        decreases remaining(Frontier { visited: visited.data@, queue: visit_order }, head),
    {
        let (x, y) = to_visit.pop_front().unwrap();
        let ghost par = parents[head];
        let ghost p = (x as int, y as int);
        let ghost t = head;
        let ghost q0 = visit_order;
        let ghost img0 = img@;
        let ghost f0 = Frontier { visited: visited.data@, queue: visit_order };
        let ghost budget = count_unset(visited.data@) + visit_order.len();
        proof {
            assert(transparent(orig, pos(visit_order[t])));
            assert(parent_ready(can_be_sampled, orig, par, pos(visit_order[t])));
            assert(visited.at(x as int, y as int)) by {
                assert(positions(visit_order)[t] == p);
                assert(positions(visit_order).contains(p));
            }
        }
        proof {
            head = head + 1;
        }

        let mut sum_r: u32 = 0;
        let mut sum_g: u32 = 0;
        let mut sum_b: u32 = 0;
        let mut contributing: u32 = 0;
        let mut d: usize = 0;
        while d < 8
            invariant
                0 <= d <= 8,
                head == t + 1,
                0 <= t < q0.len(),
                q0[t] == (x, y),
                x < w,
                y < h,
                p == (x as int, y as int),
                size == (w, h),
                transparent(orig, p),
                visited.at(p.0, p.1),
                orig.in_bounds(par.0, par.1),
                can_be_sampled.at(par.0, par.1),
                adjacent(par, p),
                img@ == img0,
                img@.well_formed(),
                img@.size == (w, h),
                orig.size == (w, h),
                can_be_sampled.well_formed(),
                can_be_sampled.size == (w, h),
                visited.well_formed(),
                visited.size == (w, h),
                q0.len() <= visit_order.len(),
                to_visit@ == visit_order.subrange(head, visit_order.len() as int),
                visit_order.subrange(0, q0.len() as int) == q0,
                expand(size, Frontier { visited: visited.data@, queue: visit_order }, p, d as int) == expand(
                    size,
                    f0,
                    p,
                    0,
                ),
                count_unset(visited.data@) + visit_order.len() == budget,
                contributing <= d,
                sum_r <= 255 * contributing,
                sum_g <= 255 * contributing,
                sum_b <= 255 * contributing,
                sum_r + neighbor_sum(img0, orig, q0, t, p, 0, d as int) == neighbor_sum(img0, orig, q0, t, p, 0, 0),
                sum_g + neighbor_sum(img0, orig, q0, t, p, 1, d as int) == neighbor_sum(img0, orig, q0, t, p, 1, 0),
                sum_b + neighbor_sum(img0, orig, q0, t, p, 2, d as int) == neighbor_sum(img0, orig, q0, t, p, 2, 0),
                contributing + neighbor_count(orig, q0, t, p, d as int) == neighbor_count(orig, q0, t, p, 0),
                contributing == 0 ==> forall|e: int|
                    0 <= e < d ==> (x + direction(e).0, y + direction(e).1) != par,
                forall|cx: int, cy: int|
                    0 <= cx < w && 0 <= cy < h ==> (#[trigger] can_be_sampled.at(cx, cy) <==> sampled(
                        orig,
                        q0,
                        t,
                        (cx, cy),
                    )),
                forall|cx: int, cy: int|
                    0 <= cx < w && 0 <= cy < h ==> (#[trigger] visited.at(cx, cy) <==> (visible(orig, (cx, cy))
                        || positions(visit_order).contains((cx, cy)))),
                forall|cx: int, cy: int|
                    visible(orig, (cx, cy)) ==> #[trigger] img@.pixel(cx, cy) == orig.pixel(cx, cy),
                forall|cx: int, cy: int|
                    orig.in_bounds(cx, cy) ==> (#[trigger] img@.pixel(cx, cy)).a == orig.pixel(cx, cy).a,
                forall|cx: int, cy: int|
                    orig.in_bounds(cx, cy) && !visited.at(cx, cy) ==> #[trigger] img@.pixel(cx, cy) == orig.pixel(
                        cx,
                        cy,
                    ),
                forall|cx: int, cy: int|
                    0 <= cx < w && 0 <= cy < h && #[trigger] visited.at(cx, cy) && transparent(orig, (cx, cy))
                        ==> reached(orig, (cx, cy)),
                forall|i: int, j: int| 0 <= i < j < visit_order.len() ==> visit_order[i] != visit_order[j],
                forall|i: int|
                    0 <= i < visit_order.len() ==> transparent(orig, pos(#[trigger] visit_order[i])),
                parents.len() == visit_order.len(),
                forall|i: int|
                    head <= i < visit_order.len() ==> parent_ready(can_be_sampled, orig, parents[i], pos(#[trigger] visit_order[i]))
                        || (parents[i] == p && adjacent(p, pos(visit_order[i]))),
                forall|cx: int, cy: int|
                    0 <= cx < w && 0 <= cy < h && #[trigger] can_be_sampled.at(cx, cy) ==> visited.at(cx, cy),
            decreases 8 - d,
        {
            if let Some(n) = neighbor(x, y, d, w, h) {
                let ghost nn = (n.0 as int, n.1 as int);
                proof {
                    lemma_cell(w as int, h as int, nn.0, nn.1, nn.0, nn.1);
                }
                if can_be_sampled.get(n.0, n.1) {
                    let source = img.get_pixel(n);
                    contributing = contributing + 1;
                    sum_r = sum_r + source.r as u32;
                    sum_g = sum_g + source.g as u32;
                    sum_b = sum_b + source.b as u32;
                } else if !visited.get(n.0, n.1) {
                    let ghost q_before = visit_order;
                    proof {
                        assert(transparent(orig, nn));
                        lemma_reach_step(orig, p, nn);
                        lemma_positions_push(visit_order, n);
                        assert forall|i: int| 0 <= i < visit_order.len() implies visit_order[i] != n by {
                            if visit_order[i] == n {
                                assert(positions(visit_order)[i] == nn);
                            }
                        }
                    }
                    visited.set(n.0, n.1);
                    to_visit.push_back(n);
                    proof {
                        assert(to_visit@ =~= visit_order.push(n).subrange(head, visit_order.len() + 1 as int));
                        visit_order = visit_order.push(n);
                        parents = parents.push(p);
                        assert(visit_order == q_before.push(n));
                        assert forall|i: int| 0 <= i < q0.len() implies visit_order.subrange(0, q0.len() as int)[i]
                            == q0[i] by {
                            assert(q_before.subrange(0, q0.len() as int)[i] == q0[i]);
                        }
                        assert(visit_order.subrange(0, q0.len() as int) =~= q0);
                    }
                }
            }
            d = d + 1;
        }
        proof {
            if contributing == 0 {
                let e = lemma_adjacent_direction(p, par);
                assert((x + direction(e).0, y + direction(e).1) != par);
            }
            lemma_average_fits(sum_r, contributing);
            lemma_average_fits(sum_g, contributing);
            lemma_average_fits(sum_b, contributing);
        }
        let bled = Pixel::new(
            (sum_r / contributing) as u8,
            (sum_g / contributing) as u8,
            (sum_b / contributing) as u8,
            0,
        );
        proof {
            assert(bled == bled_pixel(img0, orig, q0, t));
            lemma_with_pixel(img0, x as int, y as int, bled);
        }
        img.set_pixel((x, y), bled);
        can_be_sampled.set(x, y);
        proof {
            let q1 = visit_order;
            let img1 = img@;
            assert(remaining(f0, t) >= 1);
            assert forall|i: int| 0 <= i < q0.len() implies #[trigger] q1[i] == q0[i] by {
                assert(q1.subrange(0, q0.len() as int)[i] == q1[i]);
            }
            assert forall|t2: int| 0 <= t2 < head implies img1.pixel(
                #[trigger] q1[t2].0 as int,
                q1[t2].1 as int,
            ) == bled_pixel(img1, orig, q1, t2) by {
                assert(q1[t2] == q0[t2]);
                assert forall|n: (int, int)| in_grid(orig.size, n) && sampled(orig, q0, t2, n) implies #[trigger] img1.pixel(
                    n.0,
                    n.1,
                ) == img0.pixel(n.0, n.1) by {
                    if n == p {
                        assert(!visible(orig, p));
                        let i = choose|i: int| 0 <= i < positions(q0).subrange(0, t2).len() && positions(
                            q0,
                        ).subrange(0, t2)[i] == n;
                        assert(positions(q0)[i] == n);
                        assert(q0[i].0 == x && q0[i].1 == y);
                        assert(q0[i] == q0[t]);
                    }
                }
                lemma_bled_pixel_frame(img1, img0, orig, q0, t2);
                lemma_bled_pixel_prefix(img1, orig, q0, q1, t2);
                if t2 < t {
                    assert(q0[t2] != q0[t]);
                    assert(img0.pixel(q0[t2].0 as int, q0[t2].1 as int) == bled_pixel(img0, orig, q0, t2));
                    assert((q0[t2].0 as int, q0[t2].1 as int) != (x as int, y as int));
                    assert(transparent(orig, pos(q1[t2])));
                    assert(img1.pixel(q0[t2].0 as int, q0[t2].1 as int) == img0.pixel(q0[t2].0 as int, q0[t2].1 as int));
                } else {
                    assert(t2 == t);
                    assert(img1.pixel(x as int, y as int) == bled);
                }
            }
            assert(positions(q1).subrange(0, head) =~= positions(q0).subrange(0, t).push(p)) by {
                assert forall|i: int| 0 <= i < head implies positions(q1)[i] == positions(q0)[i] by {
                    assert(q1[i] == q0[i]);
                }
            }
            assert forall|cx: int, cy: int|
                0 <= cx < w && 0 <= cy < h implies (#[trigger] can_be_sampled.at(cx, cy) <==> sampled(
                orig,
                q1,
                head,
                (cx, cy),
            )) by {
                lemma_contains_push(positions(q0).subrange(0, t), p, (cx, cy));
            }
        }
    }
    proof {
        let fin = Frontier { visited: visited.data@, queue: visit_order };
        assert(run(size, fin, head, remaining(fin, head) as nat) == fin);
        assert(visit_order == schedule(orig));
        assert forall|cx: int, cy: int|
            orig.in_bounds(cx, cy) && !visible(orig, (cx, cy)) && !positions(visit_order).contains((cx, cy)) implies #[trigger] img@.pixel(
            cx,
            cy,
        ) == orig.pixel(cx, cy) by {
            assert(!visited.at(cx, cy));
        }
    }
}

/// Two images of one size whose pixels have the same alpha.
pub open spec fn same_alpha(a: ImageModel, b: ImageModel) -> bool {
    &&& a.size == b.size
    &&& forall|x: int, y: int| a.in_bounds(x, y) ==> (#[trigger] a.pixel(x, y)).a == b.pixel(x, y).a
}

proof fn lemma_same_visible(a: ImageModel, b: ImageModel)
    requires
        same_alpha(a, b),
    ensures
        forall|p: (int, int)| #[trigger] visible(a, p) == visible(b, p),
{
    assert forall|p: (int, int)| #[trigger] visible(a, p) == visible(b, p) by {
        if a.in_bounds(p.0, p.1) {
            assert(a.pixel(p.0, p.1).a == b.pixel(p.0, p.1).a);
        }
    }
}

proof fn lemma_any_visible_same(a: ImageModel, b: ImageModel, p: (int, int), d: int)
    requires
        forall|q: (int, int)| #[trigger] visible(a, q) == visible(b, q),
    ensures
        any_visible_neighbor(a, p, d) == any_visible_neighbor(b, p, d),
    decreases 8 - d,
{
    if d < 8 {
        assert(visible(a, step_to(p, d)) == visible(b, step_to(p, d)));
        lemma_any_visible_same(a, b, p, d + 1);
    }
}

proof fn lemma_scan_row_same(a: ImageModel, b: ImageModel, f: Frontier, y: int, x: int)
    requires
        a.size == b.size,
        forall|q: (int, int)| #[trigger] visible(a, q) == visible(b, q),
    ensures
        scan_row(a, f, y, x) == scan_row(b, f, y, x),
    decreases x,
{
    if x > 0 {
        lemma_scan_row_same(a, b, f, y, x - 1);
        lemma_any_visible_same(a, b, (x - 1, y), 0);
        assert(visible(a, (x - 1, y)) == visible(b, (x - 1, y)));
    }
}

proof fn lemma_scan_rows_same(a: ImageModel, b: ImageModel, y: int)
    requires
        a.size == b.size,
        forall|q: (int, int)| #[trigger] visible(a, q) == visible(b, q),
    ensures
        scan_rows(a, y) == scan_rows(b, y),
    decreases y,
{
    if y > 0 {
        lemma_scan_rows_same(a, b, y - 1);
        lemma_scan_row_same(a, b, scan_rows(a, y - 1), y - 1, a.size.0 as int);
    }
}

/// The schedule depends on the size and on which pixels are visible only.
pub proof fn lemma_schedule_same_alpha(a: ImageModel, b: ImageModel)
    requires
        same_alpha(a, b),
    ensures
        schedule(a) == schedule(b),
{
    lemma_same_visible(a, b);
    lemma_scan_rows_same(a, b, a.size.1 as int);
}

proof fn lemma_neighbors_same_orig(
    img: ImageModel,
    o1: ImageModel,
    o2: ImageModel,
    sched: Seq<(u32, u32)>,
    t: int,
    p: (int, int),
    c: int,
    d: int,
)
    requires
        o1.size == o2.size,
        forall|q: (int, int)| #[trigger] visible(o1, q) == visible(o2, q),
    ensures
        neighbor_sum(img, o1, sched, t, p, c, d) == neighbor_sum(img, o2, sched, t, p, c, d),
        neighbor_count(o1, sched, t, p, d) == neighbor_count(o2, sched, t, p, d),
    decreases 8 - d,
{
    if d < 8 {
        assert(visible(o1, step_to(p, d)) == visible(o2, step_to(p, d)));
        lemma_neighbors_same_orig(img, o1, o2, sched, t, p, c, d + 1);
    }
}

/// Every scheduled pixel up to `t` is the same after a second bleed.
proof fn lemma_second_bleed_scheduled(x: ImageModel, y: ImageModel, z: ImageModel, t: int)
    requires
        bled_from(x, y),
        bled_from(y, z),
        schedule(y) == schedule(x),
        forall|q: (int, int)| #[trigger] visible(x, q) == visible(y, q),
        0 <= t < schedule(x).len(),
    ensures
        forall|i: int|
            0 <= i <= t ==> z.pixel(#[trigger] schedule(x)[i].0 as int, schedule(x)[i].1 as int) == y.pixel(
                schedule(x)[i].0 as int,
                schedule(x)[i].1 as int,
            ),
    decreases t,
{
    let sched = schedule(x);
    if t > 0 {
        lemma_second_bleed_scheduled(x, y, z, t - 1);
    }
    let p = pos(sched[t]);
    assert forall|n: (int, int)| in_grid(y.size, n) && sampled(y, sched, t, n) implies #[trigger] z.pixel(
        n.0,
        n.1,
    ) == y.pixel(n.0, n.1) by {
        if visible(y, n) {
            assert(z.pixel(n.0, n.1) == y.pixel(n.0, n.1));
        } else {
            let i = choose|i: int| 0 <= i < positions(sched).subrange(0, t).len() && positions(sched).subrange(
                0,
                t,
            )[i] == n;
            assert(positions(sched)[i] == n);
            assert(z.pixel(sched[i].0 as int, sched[i].1 as int) == y.pixel(sched[i].0 as int, sched[i].1 as int));
        }
    }
    lemma_bled_pixel_frame(z, y, y, sched, t);
    lemma_neighbors_same_orig(y, y, x, sched, t, p, 0, 0);
    lemma_neighbors_same_orig(y, y, x, sched, t, p, 1, 0);
    lemma_neighbors_same_orig(y, y, x, sched, t, p, 2, 0);
    assert(bled_pixel(y, y, sched, t) == bled_pixel(y, x, sched, t));
    assert(z.pixel(sched[t].0 as int, sched[t].1 as int) == bled_pixel(z, y, sched, t));
    assert(y.pixel(sched[t].0 as int, sched[t].1 as int) == bled_pixel(y, x, sched, t));
}

/// Bleeding twice gives the same pixels as bleeding once: if `y` is what
/// bleeding makes of `x`, and `z` what it makes of `y`, then `z` and `y`
/// agree on every pixel.
pub proof fn lemma_bleed_idempotent(x: ImageModel, y: ImageModel, z: ImageModel)
    requires
        bled_from(x, y),
        bled_from(y, z),
    ensures
        z.same_pixels(y),
{
    assert(same_alpha(y, x));
    lemma_schedule_same_alpha(y, x);
    lemma_same_visible(x, y);
    let sched = schedule(x);
    if sched.len() > 0 {
        lemma_second_bleed_scheduled(x, y, z, sched.len() - 1);
    }
    assert forall|cx: int, cy: int| z.in_bounds(cx, cy) implies #[trigger] z.pixel(cx, cy) == y.pixel(cx, cy) by {
        if positions(sched).contains((cx, cy)) {
            let i = choose|i: int| 0 <= i < positions(sched).len() && positions(sched)[i] == (cx, cy);
            assert(z.pixel(sched[i].0 as int, sched[i].1 as int) == y.pixel(sched[i].0 as int, sched[i].1 as int));
        } else if visible(y, (cx, cy)) {
        } else {
            assert(!visible(y, (cx, cy)));
        }
    }
}

} // verus!
