//! Painting on a bitmap: clearing it, and filling the connected region of one
//! colour around a pixel.

use crate::bitmap::bitmap_extent;
use crate::bitmap::bitmap_pixels;
use crate::bitmap::buffer_fill_circle;
use crate::bitmap::buffer_fill_quad;
use crate::bitmap::circle_filled;
use crate::bitmap::in_reach;
use crate::bitmap::polygon_filled;
use crate::bitmap::transparent;
use crate::bitmap::Bitmap;
use crate::bitmap::Color;
use crate::bitmap::DRAW_REACH;
use vstd::prelude::*;

verus! {

/// Whether two pixels are next to each other in a row or in a column.
pub open spec fn adjacent(p: (int, int), q: (int, int)) -> bool {
    ||| p.0 == q.0 && (p.1 + 1 == q.1 || q.1 + 1 == p.1)
    ||| p.1 == q.1 && (p.0 + 1 == q.0 || q.0 + 1 == p.0)
}

/// A walk through pixels of one colour: it is not empty, each of its pixels
/// lies in the bitmap and has the colour, and each step goes to a neighbour in
/// the row or the column.
pub open spec fn is_walk(bitmap: Bitmap, color: Color, walk: Seq<(int, int)>) -> bool {
    &&& walk.len() > 0
    &&& forall|i: int|
        0 <= i < walk.len() ==> bitmap.contains(#[trigger] walk[i].0, walk[i].1) && bitmap.pixel(
            walk[i].0,
            walk[i].1,
        ) == color
    &&& forall|i: int| 0 < i < walk.len() ==> adjacent(walk[i - 1], #[trigger] walk[i])
}

/// The region around `start`: the pixels that a walk through pixels of the
/// colour of `start` reaches from it.
pub open spec fn in_region(bitmap: Bitmap, start: (int, int), p: (int, int)) -> bool {
    exists|walk: Seq<(int, int)>|
        #[trigger] is_walk(bitmap, bitmap.pixel(start.0, start.1), walk) && walk[0] == start
            && walk.last() == p
}

/// The pixels of a bitmap that have the given colour.
pub open spec fn pixels_of(bitmap: Bitmap, color: Color) -> Set<(int, int)> {
    Set::new(|p: (int, int)| bitmap.contains(p.0, p.1) && bitmap.pixel(p.0, p.1) == color)
}

spec fn grid(width: int, height: int) -> Set<(int, int)> {
    Set::new(|p: (int, int)| 0 <= p.0 < width && 0 <= p.1 < height)
}

proof fn lemma_grid_finite(width: int, height: int)
    requires
        0 <= width,
        0 <= height,
    ensures
        grid(width, height).finite(),
    decreases height,
{
    if height == 0 {
        assert(grid(width, height) =~= Set::<(int, int)>::empty());
    } else {
        lemma_grid_finite(width, height - 1);
        let columns = vstd::set_lib::set_int_range(0, width);
        vstd::set_lib::lemma_int_range(0, width);
        let row = columns.map(|x: int| (x, height - 1));
        columns.lemma_map_finite(|x: int| (x, height - 1));
        assert forall|p: (int, int)| grid(width, height).contains(p) implies (grid(
            width,
            height - 1,
        ).union(row)).contains(p) by {
            if p.1 == height - 1 {
                assert(columns.contains(p.0));
                assert(p == (p.0, height - 1));
            }
        }
        assert(grid(width, height) =~= grid(width, height - 1).union(row));
    }
}

proof fn lemma_pixels_of_finite(bitmap: Bitmap, color: Color)
    ensures
        pixels_of(bitmap, color).finite(),
{
    lemma_grid_finite(bitmap.spec_width(), bitmap.spec_height());
    vstd::set_lib::lemma_set_subset_finite(
        grid(bitmap.spec_width(), bitmap.spec_height()),
        pixels_of(bitmap, color),
    );
}

/// The body of a stroke: the quadrilateral between its two ends, by its four
/// corners in the order of its outline.
#[derive(Clone, Copy, Debug)]
pub struct Quad {
    pub a: (i32, i32),
    pub b: (i32, i32),
    pub c: (i32, i32),
    pub d: (i32, i32),
}

impl Quad {
    /// The corners as points of the plane.
    pub open spec fn corners(self) -> Seq<(int, int)> {
        seq![
            (self.a.0 as int, self.a.1 as int),
            (self.b.0 as int, self.b.1 as int),
            (self.c.0 as int, self.c.1 as int),
            (self.d.0 as int, self.d.1 as int),
        ]
    }

    /// Whether the quadrilateral can be drawn: its corners lie within reach,
    /// and its outline does not end where it starts.
    pub open spec fn drawable(self) -> bool {
        in_reach(self.a) && in_reach(self.b) && in_reach(self.c) && in_reach(self.d) && self.a
            != self.d
    }
}

/// The pixels after a stroke: a filled circle at each end, then the body
/// between them if there is one.
pub open spec fn stroke_pixels(
    extent: (nat, nat),
    pixels: Map<(int, int), Color>,
    pos1: (int, int),
    pos2: (int, int),
    radius: int,
    body: Option<Quad>,
    color: Color,
) -> Map<(int, int), Color> {
    let caps = circle_filled(
        extent,
        circle_filled(extent, pixels, pos1, radius, color),
        pos2,
        radius,
        color,
    );
    match body {
        Some(quad) => polygon_filled(extent, caps, quad.corners(), color),
        None => caps,
    }
}

/// Draws a stroke: a filled circle of the given radius at each of its two
/// ends, and the quadrilateral between them where the ends lie apart. Each
/// pixel keeps its colour or takes that of the stroke. The shapes must lie
/// within reach, and a body needs a bitmap that has a row and whose width and
/// height are signed integers.
pub fn draw_rounded_line(
    bitmap: &mut Bitmap,
    pos1: (i32, i32),
    pos2: (i32, i32),
    radius: i32,
    body: Option<Quad>,
    color: Color,
)
    requires
        in_reach(pos1),
        in_reach(pos2),
        -DRAW_REACH <= radius <= DRAW_REACH,
        body matches Some(quad) ==> quad.drawable() && old(bitmap).spec_width() <= i32::MAX && 1
            <= old(bitmap).spec_height() <= i32::MAX,
    ensures
        final(bitmap).spec_width() == old(bitmap).spec_width(),
        final(bitmap).spec_height() == old(bitmap).spec_height(),
        bitmap_pixels(*final(bitmap)) == stroke_pixels(
            bitmap_extent(*old(bitmap)),
            bitmap_pixels(*old(bitmap)),
            (pos1.0 as int, pos1.1 as int),
            (pos2.0 as int, pos2.1 as int),
            radius as int,
            body,
            color,
        ),
        forall|x: int, y: int|
            #[trigger] final(bitmap).pixel(x, y) == old(bitmap).pixel(x, y) || final(bitmap).pixel(
                x,
                y,
            ) == color,
{
    let ghost before = *bitmap;
    buffer_fill_circle(bitmap, pos1, radius, color);
    let ghost first = *bitmap;
    buffer_fill_circle(bitmap, pos2, radius, color);
    let ghost second = *bitmap;
    match body {
        Some(quad) => {
            buffer_fill_quad(bitmap, quad.a, quad.b, quad.c, quad.d, color);
        },
        None => {},
    }
    proof {
        assert forall|x: int, y: int|
            #[trigger] bitmap.pixel(x, y) == before.pixel(x, y) || bitmap.pixel(x, y)
                == color by {
            assert(bitmap_pixels(first)[(x, y)] == bitmap_pixels(before)[(x, y)] || bitmap_pixels(
                first,
            )[(x, y)] == color);
            assert(bitmap_pixels(second)[(x, y)] == bitmap_pixels(first)[(x, y)] || bitmap_pixels(
                second,
            )[(x, y)] == color);
            assert(bitmap_pixels(*bitmap)[(x, y)] == bitmap_pixels(second)[(x, y)]
                || bitmap_pixels(*bitmap)[(x, y)] == color);
        }
    }
}

/// Clears the bitmap: every pixel becomes transparent.
pub fn clear(bitmap: &mut Bitmap)
    ensures
        final(bitmap).spec_width() == old(bitmap).spec_width(),
        final(bitmap).spec_height() == old(bitmap).spec_height(),
        forall|x: int, y: int| #[trigger]
            final(bitmap).pixel(x, y) == if old(bitmap).contains(x, y) {
                transparent()
            } else {
                old(bitmap).pixel(x, y)
            },
{
    let ghost before = *bitmap;
    let w = bitmap.width();
    let h = bitmap.height();
    let mut y: u32 = 0;
    while y < h
        invariant
            w == before.spec_width(),
            h == before.spec_height(),
            bitmap.spec_width() == w,
            bitmap.spec_height() == h,
            y <= h,
            forall|i: int, j: int| #[trigger]
                bitmap.pixel(i, j) == if before.contains(i, j) && j < y {
                    transparent()
                } else {
                    before.pixel(i, j)
                },
        decreases h - y,
    {
        let mut x: u32 = 0;
        while x < w
            invariant
                w == before.spec_width(),
                h == before.spec_height(),
                bitmap.spec_width() == w,
                bitmap.spec_height() == h,
                y < h,
                x <= w,
                forall|i: int, j: int| #[trigger]
                    bitmap.pixel(i, j) == if before.contains(i, j) && (j < y || (j == y && i < x)) {
                        transparent()
                    } else {
                        before.pixel(i, j)
                    },
            decreases w - x,
        {
            bitmap.put_pixel(x, y, transparent());
            x += 1;
        }
        y += 1;
    }
}

/// A pixel whose colour is no longer the one it had in `before`.
spec fn repainted(before: Bitmap, now: Bitmap, p: (int, int)) -> bool {
    now.pixel(p.0, p.1) != before.pixel(p.0, p.1)
}

/// Whether the pixel waits on the frontier.
spec fn waiting(frontier: Seq<(u32, u32)>, p: (int, int)) -> bool {
    exists|i: int| 0 <= i < frontier.len() && #[trigger] frontier[i].0 == p.0 && frontier[i].1 == p.1
}

/// What the fill keeps true of the repainted pixels: each lies in the region
/// and has the fill colour, and a neighbour of the start colour is repainted
/// too or waits on the frontier.
#[verifier::opaque]
spec fn fill_progress(
    before: Bitmap,
    now: Bitmap,
    start: (int, int),
    fill: Color,
    frontier: Seq<(u32, u32)>,
) -> bool {
    let start_color = before.pixel(start.0, start.1);
    &&& now.spec_width() == before.spec_width()
    &&& now.spec_height() == before.spec_height()
    &&& forall|p: (int, int)| #[trigger]
        repainted(before, now, p) ==> in_region(before, start, p) && now.pixel(p.0, p.1) == fill
    &&& forall|i: int|
        0 <= i < frontier.len() ==> before.contains(#[trigger] frontier[i].0 as int, frontier[i].1 as int)
            && (before.pixel(frontier[i].0 as int, frontier[i].1 as int) == start_color
            ==> in_region(before, start, (frontier[i].0 as int, frontier[i].1 as int)))
    &&& forall|p: (int, int), q: (int, int)|
        repainted(before, now, p) && #[trigger] adjacent(p, q) && before.contains(q.0, q.1)
            && before.pixel(q.0, q.1) == start_color ==> repainted(before, now, q) || waiting(
            frontier,
            q,
        )
    &&& repainted(before, now, start) || waiting(frontier, start)
}

/// The region grows along rows and columns: a neighbour of one of its pixels
/// that lies in the bitmap and has the colour of the start belongs to it too.
pub proof fn lemma_region_step(bitmap: Bitmap, start: (int, int), p: (int, int), q: (int, int))
    requires
        in_region(bitmap, start, p),
        adjacent(p, q),
        bitmap.contains(q.0, q.1),
        bitmap.pixel(q.0, q.1) == bitmap.pixel(start.0, start.1),
    ensures
        in_region(bitmap, start, q),
{
    let color = bitmap.pixel(start.0, start.1);
    let walk = choose|walk: Seq<(int, int)>|
        #[trigger] is_walk(bitmap, color, walk) && walk[0] == start && walk.last() == p;
    let longer = walk.push(q);
    assert forall|i: int| 0 < i < longer.len() implies adjacent(
        longer[i - 1],
        #[trigger] longer[i],
    ) by {
        if i < walk.len() {
            assert(adjacent(walk[i - 1], walk[i]));
        }
    }
    assert(is_walk(bitmap, color, longer));
    assert(longer[0] == start && longer.last() == q);
}

/// The start belongs to its own region.
pub proof fn lemma_region_start(bitmap: Bitmap, start: (int, int))
    requires
        bitmap.contains(start.0, start.1),
    ensures
        in_region(bitmap, start, start),
{
    let walk = seq![start];
    assert(is_walk(bitmap, bitmap.pixel(start.0, start.1), walk));
    assert(walk[0] == start && walk.last() == start);
}

/// Every pixel of the region lies in the bitmap and has the colour of the
/// start.
pub proof fn lemma_region_color(bitmap: Bitmap, start: (int, int), p: (int, int))
    requires
        in_region(bitmap, start, p),
    ensures
        bitmap.contains(p.0, p.1),
        bitmap.pixel(p.0, p.1) == bitmap.pixel(start.0, start.1),
{
    let walk = choose|walk: Seq<(int, int)>|
        #[trigger] is_walk(bitmap, bitmap.pixel(start.0, start.1), walk) && walk[0] == start
            && walk.last() == p;
    assert(bitmap.contains(walk[walk.len() - 1].0, walk[walk.len() - 1].1));
}

/// Once the frontier is empty, every pixel at the end of a walk is repainted.
proof fn lemma_walk_repainted(
    before: Bitmap,
    now: Bitmap,
    start: (int, int),
    fill: Color,
    walk: Seq<(int, int)>,
)
    requires
        fill_progress(before, now, start, fill, Seq::empty()),
        is_walk(before, before.pixel(start.0, start.1), walk),
        walk[0] == start,
    ensures
        repainted(before, now, walk.last()),
    decreases walk.len(),
{
    reveal(fill_progress);
    if walk.len() == 1 {
        assert(!waiting(Seq::<(u32, u32)>::empty(), start));
    } else {
        let shorter = walk.drop_last();
        assert forall|i: int| 0 < i < shorter.len() implies adjacent(
            shorter[i - 1],
            #[trigger] shorter[i],
        ) by {
            assert(adjacent(walk[i - 1], walk[i]));
        }
        assert forall|i: int| 0 <= i < shorter.len() implies before.contains(
            #[trigger] shorter[i].0,
            shorter[i].1,
        ) && before.pixel(shorter[i].0, shorter[i].1) == before.pixel(start.0, start.1) by {
            assert(shorter[i] == walk[i]);
        }
        lemma_walk_repainted(before, now, start, fill, shorter);
        let p = shorter.last();
        let q = walk.last();
        assert(p == walk[walk.len() - 2]);
        assert(adjacent(p, q));
        assert(before.contains(walk[walk.len() - 1].0, walk[walk.len() - 1].1));
        assert(!waiting(Seq::<(u32, u32)>::empty(), q));
    }
}

/// Taking a pixel that no longer has the start colour off the frontier.
proof fn lemma_fill_skip(
    before: Bitmap,
    now: Bitmap,
    start: (int, int),
    fill: Color,
    popped_from: Seq<(u32, u32)>,
)
    requires
        popped_from.len() > 0,
        fill_progress(before, now, start, fill, popped_from),
        now.pixel(popped_from.last().0 as int, popped_from.last().1 as int) != before.pixel(
            start.0,
            start.1,
        ),
    ensures
        fill_progress(before, now, start, fill, popped_from.drop_last()),
{
    reveal(fill_progress);
    let frontier = popped_from.drop_last();
    let here = (popped_from.last().0 as int, popped_from.last().1 as int);
    let start_color = before.pixel(start.0, start.1);
    assert(popped_from[popped_from.len() - 1].0 == here.0);
    assert(repainted(before, now, here) || before.pixel(here.0, here.1) != start_color);
    assert forall|q: (int, int)| waiting(popped_from, q) && q != here implies waiting(
        frontier,
        q,
    ) by {
        let i = choose|i: int|
            0 <= i < popped_from.len() && #[trigger] popped_from[i].0 == q.0 && popped_from[i].1
                == q.1;
        assert(frontier[i] == popped_from[i]);
        assert(frontier[i].0 == q.0);
    }
    assert forall|i: int| 0 <= i < frontier.len() implies before.contains(
        #[trigger] frontier[i].0 as int,
        frontier[i].1 as int,
    ) && (before.pixel(frontier[i].0 as int, frontier[i].1 as int) == start_color ==> in_region(
        before,
        start,
        (frontier[i].0 as int, frontier[i].1 as int),
    )) by {
        assert(frontier[i] == popped_from[i]);
        assert(before.contains(popped_from[i].0 as int, popped_from[i].1 as int));
    }
}

/// Repainting the pixel taken off the frontier and putting its neighbours on.
proof fn lemma_fill_paint(
    before: Bitmap,
    earlier: Bitmap,
    now: Bitmap,
    start: (int, int),
    fill: Color,
    popped_from: Seq<(u32, u32)>,
    frontier: Seq<(u32, u32)>,
)
    requires
        popped_from.len() > 0,
        fill_progress(before, earlier, start, fill, popped_from),
        fill != before.pixel(start.0, start.1),
        earlier.pixel(popped_from.last().0 as int, popped_from.last().1 as int) == before.pixel(
            start.0,
            start.1,
        ),
        now.spec_width() == earlier.spec_width(),
        now.spec_height() == earlier.spec_height(),
        forall|i: int, j: int|
            now.pixel(i, j) == if i == popped_from.last().0 && j == popped_from.last().1 {
                fill
            } else {
                earlier.pixel(i, j)
            },
        grown_by_neighbours(
            popped_from.drop_last(),
            frontier,
            (popped_from.last().0 as int, popped_from.last().1 as int),
            before.spec_width(),
            before.spec_height(),
        ),
    ensures
        fill_progress(before, now, start, fill, frontier),
        pixels_of(now, before.pixel(start.0, start.1)) == pixels_of(
            earlier,
            before.pixel(start.0, start.1),
        ).remove((popped_from.last().0 as int, popped_from.last().1 as int)),
        pixels_of(earlier, before.pixel(start.0, start.1)).contains(
            (popped_from.last().0 as int, popped_from.last().1 as int),
        ),
{
    reveal(fill_progress);
    let here = (popped_from.last().0 as int, popped_from.last().1 as int);
    let start_color = before.pixel(start.0, start.1);
    let kept = popped_from.drop_last();
    assert(popped_from[popped_from.len() - 1].0 == here.0);
    assert(before.contains(here.0, here.1));
    assert(!repainted(before, earlier, here));
    assert(in_region(before, start, here));
    assert forall|q: (int, int)| waiting(popped_from, q) && q != here implies waiting(
        frontier,
        q,
    ) by {
        let i = choose|i: int|
            0 <= i < popped_from.len() && #[trigger] popped_from[i].0 == q.0 && popped_from[i].1
                == q.1;
        assert(frontier[i] == kept[i]);
        assert(frontier[i].0 == q.0);
    }
    assert forall|i: int| 0 <= i < frontier.len() implies before.contains(
        #[trigger] frontier[i].0 as int,
        frontier[i].1 as int,
    ) && (before.pixel(frontier[i].0 as int, frontier[i].1 as int) == start_color ==> in_region(
        before,
        start,
        (frontier[i].0 as int, frontier[i].1 as int),
    )) by {
        if i < kept.len() {
            assert(frontier[i] == kept[i]);
            assert(before.contains(popped_from[i].0 as int, popped_from[i].1 as int));
        } else {
            let q = (frontier[i].0 as int, frontier[i].1 as int);
            assert(adjacent(here, q));
            if before.pixel(q.0, q.1) == start_color {
                lemma_region_step(before, start, here, q);
            }
        }
    }
    assert forall|p: (int, int)| #[trigger] repainted(before, now, p) implies in_region(
        before,
        start,
        p,
    ) && now.pixel(p.0, p.1) == fill by {
        if p != here {
            assert(repainted(before, earlier, p));
        }
    }
    assert forall|p: (int, int), q: (int, int)|
        repainted(before, now, p) && #[trigger] adjacent(p, q) && before.contains(q.0, q.1)
            && before.pixel(q.0, q.1) == start_color implies repainted(before, now, q) || waiting(
        frontier,
        q,
    ) by {
        if p != here && q != here {
            assert(repainted(before, earlier, p));
            if !repainted(before, earlier, q) {
                assert(waiting(popped_from, q));
            }
        }
    }
    if start != here {
        if !repainted(before, earlier, start) {
            assert(waiting(popped_from, start));
        }
    }
    assert(pixels_of(now, start_color) =~= pixels_of(earlier, start_color).remove(here));
}

/// The frontier after the neighbours of `here` inside the bitmap were put on
/// it: what it held stays in front, and what follows are those neighbours.
spec fn grown_by_neighbours(
    kept: Seq<(u32, u32)>,
    frontier: Seq<(u32, u32)>,
    here: (int, int),
    width: int,
    height: int,
) -> bool {
    &&& kept.len() <= frontier.len()
    &&& forall|i: int| 0 <= i < kept.len() ==> #[trigger] frontier[i] == kept[i]
    &&& forall|i: int|
        kept.len() <= i < frontier.len() ==> adjacent(
            here,
            (#[trigger] frontier[i].0 as int, frontier[i].1 as int),
        ) && frontier[i].0 < width && frontier[i].1 < height
    &&& forall|q: (int, int)|
        #[trigger] adjacent(here, q) && 0 <= q.0 < width && 0 <= q.1 < height ==> waiting(
            frontier,
            q,
        )
}

/// Puts on the frontier the neighbours of `(x, y)` that lie inside the bitmap.
fn push_neighbours(frontier: &mut Vec<(u32, u32)>, x: u32, y: u32, w: u32, h: u32)
    requires
        x < w,
        y < h,
    ensures
        grown_by_neighbours(old(frontier)@, final(frontier)@, (x as int, y as int), w as int, h as int),
{
    let ghost kept = frontier@;
    let ghost here = (x as int, y as int);
    if x + 1 < w {
        frontier.push((x + 1, y));
        assert(frontier@[frontier@.len() - 1].0 == x + 1);
    }
    if x > 0 {
        frontier.push((x - 1, y));
        assert(frontier@[frontier@.len() - 1].0 == x - 1);
    }
    let ghost sides = frontier@;
    assert forall|q: (int, int)|
        #[trigger] adjacent(here, q) && 0 <= q.0 < w && 0 <= q.1 < h && q.1 == y implies waiting(
        sides,
        q,
    ) by {
        if q.0 == x + 1 {
            assert(sides[kept.len() as int].0 == q.0);
        } else {
            assert(sides[sides.len() - 1].0 == q.0);
        }
    }
    if y + 1 < h {
        frontier.push((x, y + 1));
        assert(frontier@[frontier@.len() - 1].0 == x);
    }
    if y > 0 {
        frontier.push((x, y - 1));
        assert(frontier@[frontier@.len() - 1].0 == x);
    }
    assert forall|q: (int, int)|
        #[trigger] adjacent(here, q) && 0 <= q.0 < w && 0 <= q.1 < h implies waiting(
        frontier@,
        q,
    ) by {
        if q.1 == y {
            let i = choose|i: int|
                0 <= i < sides.len() && #[trigger] sides[i].0 == q.0 && sides[i].1 == q.1;
            assert(frontier@[i] == sides[i]);
            assert(frontier@[i].0 == q.0);
        } else if q.1 == y + 1 {
            assert(frontier@[sides.len() as int].0 == q.0);
        } else {
            assert(frontier@[frontier@.len() - 1].0 == q.0);
        }
    }
}

/// Fills the region around `start_pos` with `fill_color`: every pixel that a
/// walk through pixels of the start's colour reaches from the start takes the
/// fill colour, every other pixel keeps its own. Where the start already has
/// the fill colour, the bitmap is left as it is.
pub fn flood_fill(bitmap: &mut Bitmap, start_pos: (u32, u32), fill_color: Color)
    requires
        old(bitmap).contains(start_pos.0 as int, start_pos.1 as int),
    ensures
        final(bitmap).spec_width() == old(bitmap).spec_width(),
        final(bitmap).spec_height() == old(bitmap).spec_height(),
        forall|x: int, y: int| #[trigger]
            final(bitmap).pixel(x, y) == if in_region(
                *old(bitmap),
                (start_pos.0 as int, start_pos.1 as int),
                (x, y),
            ) {
                fill_color
            } else {
                old(bitmap).pixel(x, y)
            },
        fill_color == old(bitmap).pixel(start_pos.0 as int, start_pos.1 as int) ==> *final(bitmap)
            == *old(bitmap),
{
    let ghost before = *bitmap;
    let ghost start = (start_pos.0 as int, start_pos.1 as int);
    let start_color = bitmap.get_pixel(start_pos.0, start_pos.1);
    let w = bitmap.width();
    let h = bitmap.height();

    if start_color == fill_color {
        proof {
            assert forall|x: int, y: int| in_region(before, start, (x, y)) implies before.pixel(x, y)
                == fill_color by {
                lemma_region_color(before, start, (x, y));
            }
        }
        return ;
    }
    let mut frontier: Vec<(u32, u32)> = Vec::new();
    frontier.push(start_pos);
    proof {
        lemma_region_start(before, start);
        assert(frontier@[0].0 == start.0);
        assert(waiting(frontier@, start));
        lemma_pixels_of_finite(*bitmap, start_color);
        reveal(fill_progress);
    }

    while frontier.len() > 0
        invariant
            w == before.spec_width(),
            h == before.spec_height(),
            start == (start_pos.0 as int, start_pos.1 as int),
            start_color == before.pixel(start.0, start.1),
            start_color != fill_color,
            fill_progress(before, *bitmap, start, fill_color, frontier@),
            pixels_of(*bitmap, start_color).finite(),
        decreases pixels_of(*bitmap, start_color).len(), frontier.len(),
    {
        let ghost popped_from = frontier@;
        let ghost earlier = *bitmap;
        let (x, y) = frontier.pop().unwrap();
        proof {
            reveal(fill_progress);
            assert(before.contains(popped_from[popped_from.len() - 1].0 as int, popped_from[popped_from.len() - 1].1 as int));
        }
        let this_color = bitmap.get_pixel(x, y);
        if this_color == start_color {
            bitmap.put_pixel(x, y, fill_color);
            push_neighbours(&mut frontier, x, y, w, h);
            proof {
                lemma_fill_paint(
                    before,
                    earlier,
                    *bitmap,
                    start,
                    fill_color,
                    popped_from,
                    frontier@,
                );
            }
        } else {
            proof {
                lemma_fill_skip(before, *bitmap, start, fill_color, popped_from);
            }
        }
    }
    proof {
        let now = *bitmap;
        assert(frontier@ =~= Seq::empty());
        assert forall|x: int, y: int| #[trigger]
            now.pixel(x, y) == if in_region(before, start, (x, y)) {
                fill_color
            } else {
                before.pixel(x, y)
            } by {
            if in_region(before, start, (x, y)) {
                let walk = choose|walk: Seq<(int, int)>|
                    #[trigger] is_walk(before, start_color, walk) && walk[0] == start && walk.last()
                        == (x, y);
                lemma_walk_repainted(before, now, start, fill_color, walk);
                assert(repainted(before, now, (x, y)));
            } else {
                reveal(fill_progress);
                assert(!repainted(before, now, (x, y)));
            }
        }
        reveal(fill_progress);
    }
}

} // verus!
