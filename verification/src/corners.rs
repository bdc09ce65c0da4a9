//! The particles at the corners of the hexagons: a corner where hexagons meet
//! holds one particle, created by the hexagon that comes first in the scan.

use crate::grid::lemma_neighbours_meet_above;
use crate::grid::lemma_neighbours_precede;
use crate::grid::top;
use crate::grid::top_left;
use crate::grid::top_left_of;
use crate::grid::top_of;
use crate::grid::top_right;
use crate::grid::top_right_of;
use crate::mesh::Corner;
use crate::mesh::Hexagon;
use crate::mesh::Vertex;
use vstd::prelude::*;

verus! {

/// Whether a neighbouring slot exists and holds a hexagon.
pub open spec fn is_placed(placed: Seq<bool>, slot: Option<int>) -> bool {
    slot matches Some(j) && 0 <= j < placed.len() && placed[j]
}

/// The hexagon that creates the particle at a corner of the hexagon in `slot`,
/// and the corner of that hexagon at which it lies. A corner that touches a
/// hexagon above belongs to the one that comes first in the scan.
pub open spec fn corner_source(placed: Seq<bool>, count_x: int, slot: int, corner: Corner) -> (
    int,
    Corner,
) {
    let above = top(count_x, slot);
    let left = top_left(count_x, slot);
    let right = top_right(count_x, slot);
    match corner {
        Corner::TopLeft => if is_placed(placed, above) {
            (above.unwrap(), Corner::BottomLeft)
        } else if is_placed(placed, left) {
            (left.unwrap(), Corner::MidRight)
        } else {
            (slot, Corner::TopLeft)
        },
        Corner::TopRight => if is_placed(placed, above) {
            (above.unwrap(), Corner::BottomRight)
        } else if is_placed(placed, right) {
            (right.unwrap(), Corner::MidLeft)
        } else {
            (slot, Corner::TopRight)
        },
        Corner::MidRight => if is_placed(placed, right) {
            (right.unwrap(), Corner::BottomLeft)
        } else {
            (slot, Corner::MidRight)
        },
        Corner::BottomRight => (slot, Corner::BottomRight),
        Corner::BottomLeft => (slot, Corner::BottomLeft),
        Corner::MidLeft => if is_placed(placed, left) {
            (left.unwrap(), Corner::BottomRight)
        } else {
            (slot, Corner::MidLeft)
        },
    }
}

/// The order in which particles are created: by hexagon, and within one
/// hexagon by the rank of the corner.
pub open spec fn created_before(a: (int, Corner), b: (int, Corner)) -> bool {
    a.0 < b.0 || (a.0 == b.0 && a.1.rank() < b.1.rank())
}

/// What holds of the particles once the first `done` slots are scanned: each
/// hexagon among them knows the particle at each of its corners, that particle
/// is the one that the corner's source created, and the particles are those
/// that the hexagons created for themselves, each once, in the order of their
/// creation.
pub open spec fn corners_placed(
    particles: Seq<Vertex>,
    hexagons: Seq<Option<Hexagon>>,
    placed: Seq<bool>,
    count_x: int,
    done: int,
) -> bool {
    &&& 0 <= done <= placed.len()
    &&& hexagons.len() == done
    &&& forall|i: int| 0 <= i < done ==> (#[trigger] hexagons[i] is Some <==> placed[i])
    &&& forall|i: int, c: Corner|
        0 <= i < done && placed[i] ==> {
            &&& 0 <= #[trigger] hexagons[i].unwrap().at(c) < particles.len()
            &&& particles[hexagons[i].unwrap().at(c)]@ == corner_source(placed, count_x, i, c)
        }
    &&& forall|p: int|
        0 <= p < particles.len() ==> {
            &&& 0 <= (#[trigger] particles[p]).cell < done
            &&& placed[particles[p].cell as int]
            &&& corner_source(placed, count_x, particles[p].cell as int, particles[p].corner)
                == particles[p]@
        }
    &&& forall|p: int, q: int|
        0 <= p < q < particles.len() ==> created_before(
            (#[trigger] particles[p])@,
            (#[trigger] particles[q])@,
        )
}

/// Whether the neighbouring slot holds a hexagon.
fn holds_hexagon(placed: &Vec<bool>, slot: Option<usize>) -> (held: bool)
    requires
        slot matches Some(j) ==> j < placed.len(),
    ensures
        held == (slot matches Some(j) && placed@[j as int]),
{
    match slot {
        Some(j) => placed[j],
        None => false,
    }
}

/// Adds a particle at a corner of a hexagon and gives its index.
fn create_particle(particles: &mut Vec<Vertex>, cell: usize, corner: Corner) -> (index: usize)
    ensures
        index == old(particles)@.len(),
        final(particles)@ == old(particles)@.push(Vertex { cell, corner }),
{
    particles.push(Vertex { cell, corner });
    particles.len() - 1
}

/// Scans the slots row by row and gives each hexagon the particles at its six
/// corners: those that a hexagon above it has created are taken from there,
/// the others are created.
pub fn place_particles(count_x: usize, placed: &Vec<bool>) -> (out: (
    Vec<Vertex>,
    Vec<Option<Hexagon>>,
))
    requires
        count_x > 0,
    ensures
        corners_placed(out.0@, out.1@, placed@, count_x as int, placed@.len() as int),
{
    let mut particles: Vec<Vertex> = Vec::new();
    let mut hexagons: Vec<Option<Hexagon>> = Vec::new();
    let mut i: usize = 0;
    while i < placed.len()
        invariant
            count_x > 0,
            i <= placed.len(),
            corners_placed(particles@, hexagons@, placed@, count_x as int, i as int),
        decreases placed.len() - i,
    {
        if placed[i] {
            let hexagon = place_hexagon(count_x, placed, &mut particles, &hexagons, i);
            hexagons.push(Some(hexagon));
        } else {
            hexagons.push(None);
        }
        i += 1;
    }
    (particles, hexagons)
}

/// Gives the hexagon in slot `i` its six particles.
fn place_hexagon(
    count_x: usize,
    placed: &Vec<bool>,
    particles: &mut Vec<Vertex>,
    hexagons: &Vec<Option<Hexagon>>,
    i: usize,
) -> (hexagon: Hexagon)
    requires
        count_x > 0,
        i < placed.len(),
        placed@[i as int],
        corners_placed(old(particles)@, hexagons@, placed@, count_x as int, i as int),
    ensures
        corners_placed(
            final(particles)@,
            hexagons@.push(Some(hexagon)),
            placed@,
            count_x as int,
            i + 1,
        ),
{
    let ghost before = particles@;
    let left = top_left_of(count_x, i);
    let right = top_right_of(count_x, i);
    let above = top_of(count_x, i);
    proof {
        lemma_neighbours_precede(count_x as int, i as int);
        lemma_neighbours_meet_above(count_x as int, i as int);
    }
    let is_left = holds_hexagon(placed, left);
    let is_right = holds_hexagon(placed, right);
    let is_top = holds_hexagon(placed, above);

    let mut top_left_index: usize = 0;
    let mut top_right_index: usize = 0;
    let mut mid_left_index: usize = 0;
    let mut mid_right_index: usize = 0;

    // the corners that no hexagon above has created
    if !is_left && !is_top {
        top_left_index = create_particle(particles, i, Corner::TopLeft);
    }
    if !is_right && !is_top {
        top_right_index = create_particle(particles, i, Corner::TopRight);
    }
    if !is_left {
        mid_left_index = create_particle(particles, i, Corner::MidLeft);
    }
    if !is_right {
        mid_right_index = create_particle(particles, i, Corner::MidRight);
    }
    // the corners shared with a hexagon above
    if is_left {
        let neighbour = hexagons[left.unwrap()].unwrap();
        mid_left_index = neighbour.bottom_right;
        top_left_index = neighbour.mid_right;
        assert(neighbour.at(Corner::BottomRight) == mid_left_index);
        assert(neighbour.at(Corner::MidRight) == top_left_index);
    }
    if is_top {
        let neighbour = hexagons[above.unwrap()].unwrap();
        if !is_left {
            top_left_index = neighbour.bottom_left;
        }
        top_right_index = neighbour.bottom_right;
        assert(neighbour.at(Corner::BottomLeft) == neighbour.bottom_left);
        assert(neighbour.at(Corner::BottomRight) == top_right_index);
    }
    if is_right {
        let neighbour = hexagons[right.unwrap()].unwrap();
        if !is_top {
            top_right_index = neighbour.mid_left;
        }
        mid_right_index = neighbour.bottom_left;
        assert(neighbour.at(Corner::MidLeft) == neighbour.mid_left);
        assert(neighbour.at(Corner::BottomLeft) == mid_right_index);
    }
    // the two at the bottom are always new
    let bottom_left_index = create_particle(particles, i, Corner::BottomLeft);
    let bottom_right_index = create_particle(particles, i, Corner::BottomRight);

    let hexagon = Hexagon {
        top_left: top_left_index,
        top_right: top_right_index,
        mid_right: mid_right_index,
        bottom_right: bottom_right_index,
        bottom_left: bottom_left_index,
        mid_left: mid_left_index,
    };
    proof {
        let grown = hexagons@.push(Some(hexagon));
        let now = particles@;
        let cx = count_x as int;
        assert forall|p: int| 0 <= p < before.len() implies now[p] == before[p] by {}
        assert forall|p: int| before.len() <= p < now.len() implies (#[trigger] now[p]).cell == i
            && corner_source(placed@, cx, i as int, now[p].corner) == now[p]@ by {}
        assert forall|j: int, c: Corner| 0 <= j < i + 1 && placed@[j] implies 0
            <= #[trigger] grown[j].unwrap().at(c) < now.len() && now[grown[j].unwrap().at(c)]@
            == corner_source(placed@, cx, j, c) by {
            if j < i {
                assert(grown[j] == hexagons@[j]);
                assert(0 <= hexagons@[j].unwrap().at(c) < before.len());
            } else {
                assert(grown[j].unwrap() == hexagon);
                if is_left {
                    let n = hexagons@[left.unwrap() as int].unwrap();
                    assert(0 <= n.at(Corner::BottomRight) < before.len());
                    assert(0 <= n.at(Corner::MidRight) < before.len());
                }
                if is_top {
                    let n = hexagons@[above.unwrap() as int].unwrap();
                    assert(0 <= n.at(Corner::BottomRight) < before.len());
                    assert(0 <= n.at(Corner::BottomLeft) < before.len());
                }
                if is_right {
                    let n = hexagons@[right.unwrap() as int].unwrap();
                    assert(0 <= n.at(Corner::MidLeft) < before.len());
                    assert(0 <= n.at(Corner::BottomLeft) < before.len());
                }
            }
        }
        assert forall|p: int, q: int| 0 <= p < q < now.len() implies created_before(
            (#[trigger] now[p])@,
            (#[trigger] now[q])@,
        ) by {
            if q < before.len() {
                assert(created_before(before[p]@, before[q]@));
            } else if p < before.len() {
                assert(before[p].cell < i);
            }
        }
        assert forall|j: int| 0 <= j < i + 1 implies (#[trigger] grown[j] is Some <==> placed@[j]) by {
            if j < i {
                assert(grown[j] == hexagons@[j]);
            }
        }
    }
    hexagon
}

/// Where hexagons meet there is one particle: two particles of the list
/// never lie at the same corner.
pub proof fn lemma_one_particle_per_corner(
    particles: Seq<Vertex>,
    hexagons: Seq<Option<Hexagon>>,
    placed: Seq<bool>,
    count_x: int,
    p: int,
    q: int,
)
    requires
        corners_placed(particles, hexagons, placed, count_x, placed.len() as int),
        0 <= p < particles.len(),
        0 <= q < particles.len(),
        particles[p]@ == particles[q]@,
    ensures
        p == q,
{
    if p < q {
        assert(created_before(particles[p]@, particles[q]@));
    } else if q < p {
        assert(created_before(particles[q]@, particles[p]@));
    }
}

/// Two corners hold the same particle exactly when the same hexagon created
/// them at the same corner of its own.
pub proof fn lemma_same_source_same_particle(
    particles: Seq<Vertex>,
    hexagons: Seq<Option<Hexagon>>,
    placed: Seq<bool>,
    count_x: int,
    i: int,
    c: Corner,
    j: int,
    d: Corner,
)
    requires
        corners_placed(particles, hexagons, placed, count_x, placed.len() as int),
        0 <= i < placed.len() && placed[i],
        0 <= j < placed.len() && placed[j],
    ensures
        hexagons[i].unwrap().at(c) == hexagons[j].unwrap().at(d) <==> corner_source(
            placed,
            count_x,
            i,
            c,
        ) == corner_source(placed, count_x, j, d),
{
    let p = hexagons[i].unwrap().at(c);
    let q = hexagons[j].unwrap().at(d);
    assert(particles[p]@ == corner_source(placed, count_x, i, c));
    assert(particles[q]@ == corner_source(placed, count_x, j, d));
    if particles[p]@ == particles[q]@ {
        lemma_one_particle_per_corner(particles, hexagons, placed, count_x, p, q);
    }
}

/// Two hexagons that share a border share the particles at its two ends: the
/// corners of a hexagon that touch a hexagon above it are that hexagon's own
/// corners, under the same indices.
pub proof fn lemma_shared_corners(
    particles: Seq<Vertex>,
    hexagons: Seq<Option<Hexagon>>,
    placed: Seq<bool>,
    count_x: int,
    slot: int,
)
    requires
        count_x > 0,
        corners_placed(particles, hexagons, placed, count_x, placed.len() as int),
        0 <= slot < placed.len(),
        placed[slot],
    ensures
        is_placed(placed, top_left(count_x, slot)) ==> {
            let other = hexagons[top_left(count_x, slot).unwrap()].unwrap();
            &&& hexagons[slot].unwrap().top_left == other.mid_right
            &&& hexagons[slot].unwrap().mid_left == other.bottom_right
        },
        is_placed(placed, top(count_x, slot)) ==> {
            let other = hexagons[top(count_x, slot).unwrap()].unwrap();
            &&& hexagons[slot].unwrap().top_left == other.bottom_left
            &&& hexagons[slot].unwrap().top_right == other.bottom_right
        },
        is_placed(placed, top_right(count_x, slot)) ==> {
            let other = hexagons[top_right(count_x, slot).unwrap()].unwrap();
            &&& hexagons[slot].unwrap().top_right == other.mid_left
            &&& hexagons[slot].unwrap().mid_right == other.bottom_left
        },
{
    lemma_neighbours_precede(count_x, slot);
    lemma_neighbours_meet_above(count_x, slot);
    let here = hexagons[slot].unwrap();
    if is_placed(placed, top_left(count_x, slot)) {
        let j = top_left(count_x, slot).unwrap();
        lemma_same_source_same_particle(
            particles,
            hexagons,
            placed,
            count_x,
            slot,
            Corner::TopLeft,
            j,
            Corner::MidRight,
        );
        lemma_same_source_same_particle(
            particles,
            hexagons,
            placed,
            count_x,
            slot,
            Corner::MidLeft,
            j,
            Corner::BottomRight,
        );
    }
    if is_placed(placed, top(count_x, slot)) {
        let j = top(count_x, slot).unwrap();
        lemma_same_source_same_particle(
            particles,
            hexagons,
            placed,
            count_x,
            slot,
            Corner::TopLeft,
            j,
            Corner::BottomLeft,
        );
        lemma_same_source_same_particle(
            particles,
            hexagons,
            placed,
            count_x,
            slot,
            Corner::TopRight,
            j,
            Corner::BottomRight,
        );
    }
    if is_placed(placed, top_right(count_x, slot)) {
        let j = top_right(count_x, slot).unwrap();
        lemma_same_source_same_particle(
            particles,
            hexagons,
            placed,
            count_x,
            slot,
            Corner::TopRight,
            j,
            Corner::MidLeft,
        );
        lemma_same_source_same_particle(
            particles,
            hexagons,
            placed,
            count_x,
            slot,
            Corner::MidRight,
            j,
            Corner::BottomLeft,
        );
    }
}

/// Each of the five sides that a hexagon ties joins two different particles
/// of the list.
pub proof fn lemma_sides_join_two_particles(
    particles: Seq<Vertex>,
    hexagons: Seq<Option<Hexagon>>,
    placed: Seq<bool>,
    count_x: int,
    slot: int,
    k: int,
)
    requires
        corners_placed(particles, hexagons, placed, count_x, placed.len() as int),
        0 <= slot < placed.len(),
        placed[slot],
        0 <= k < 5,
    ensures
        0 <= hexagons[slot].unwrap().sides()[k].0 < particles.len(),
        0 <= hexagons[slot].unwrap().sides()[k].1 < particles.len(),
        hexagons[slot].unwrap().sides()[k].0 != hexagons[slot].unwrap().sides()[k].1,
{
    let here = hexagons[slot].unwrap();
    assert(0 <= here.at(Corner::TopLeft) < particles.len());
    assert(0 <= here.at(Corner::TopRight) < particles.len());
    assert(0 <= here.at(Corner::MidRight) < particles.len());
    assert(0 <= here.at(Corner::BottomRight) < particles.len());
    assert(0 <= here.at(Corner::BottomLeft) < particles.len());
    assert(0 <= here.at(Corner::MidLeft) < particles.len());
}

/// Without a hexagon there is no particle.
pub proof fn lemma_no_hexagon_no_particle(
    particles: Seq<Vertex>,
    hexagons: Seq<Option<Hexagon>>,
    placed: Seq<bool>,
    count_x: int,
)
    requires
        corners_placed(particles, hexagons, placed, count_x, placed.len() as int),
        forall|i: int| 0 <= i < placed.len() ==> !placed[i],
    ensures
        particles.len() == 0,
{
    if particles.len() > 0 {
        assert(placed[particles[0].cell as int]);
    }
}

} // verus!
