//! The lattice builder: samples the bitmap under the centre of each hexagon
//! slot, places a hexagon where the pixel is painted, and returns the mesh of
//! shared particles and tethers.

use crate::bitmap::draw_color;
use crate::bitmap::spec_draw_color;
use crate::bitmap::Bitmap;
use crate::corners::corners_placed;
use crate::corners::is_placed;
use crate::corners::lemma_no_hexagon_no_particle;
use crate::corners::lemma_shared_corners;
use crate::corners::lemma_sides_join_two_particles;
use crate::corners::place_particles;
use crate::grid::top;
use crate::grid::top_left;
use crate::grid::top_right;
use crate::mesh::same_link;
use crate::mesh::Hexagon;
use crate::mesh::Tether;
use crate::mesh::Vertex;
use crate::tethers::first_links;
use crate::tethers::has_link;
use crate::tethers::lemma_first_links;
use crate::tethers::lemma_sides_upto;
use crate::tethers::links;
use crate::tethers::sides_upto;
use crate::tethers::tie_particles;
use vstd::prelude::*;

verus! {

/// A mesh: the particles, the hexagon of each slot with the indices of its
/// six particles, and the tethers between particles.
#[derive(Debug, PartialEq, Eq)]
pub struct Lattice {
    /// The particles, each by the hexagon corner at which it was created.
    pub particles: Vec<Vertex>,
    /// For each slot of the grid its hexagon, if one was placed there.
    pub hexagons: Vec<Option<Hexagon>>,
    /// The tethers, each by the indices of the two particles it joins.
    pub tethers: Vec<Tether>,
}

/// Why no lattice could be built.
#[derive(Clone, Copy, Debug, PartialEq, Eq, Structural)]
pub enum LatticeError {
    /// The number of centres is not the number of slots of the grid.
    GridMismatch,
    /// A centre lies outside the bitmap.
    CenterOutside,
}

impl Lattice {
    /// The mesh of a grid with `count_x` slots in a row and a hexagon in each
    /// slot that `placed` marks: the particles are those of the hexagons'
    /// corners, one for each corner where hexagons meet, and the tethers are
    /// the sides of the hexagons in the order of the scan, each link once.
    pub open spec fn is_mesh_of(&self, placed: Seq<bool>, count_x: int) -> bool {
        &&& corners_placed(self.particles@, self.hexagons@, placed, count_x, placed.len() as int)
        &&& links(self.tethers@) == first_links(sides_upto(self.hexagons@, placed.len() as int))
    }

    /// Every tether joins two different particles of the mesh, and no two
    /// tethers join the same two particles, in whichever order.
    pub open spec fn tethers_sound(&self) -> bool {
        &&& forall|t: int|
            0 <= t < self.tethers@.len() ==> {
                &&& (#[trigger] self.tethers@[t]).p1_index < self.particles@.len()
                &&& self.tethers@[t].p2_index < self.particles@.len()
                &&& self.tethers@[t].p1_index != self.tethers@[t].p2_index
            }
        &&& forall|s: int, t: int|
            0 <= s < t < self.tethers@.len() ==> !same_link(
                (#[trigger] self.tethers@[s])@,
                (#[trigger] self.tethers@[t])@,
            )
    }

    /// Each of the five sides that a hexagon ties has a tether, its own or one
    /// that an earlier hexagon tied.
    pub open spec fn sides_tethered(&self) -> bool {
        forall|i: int, k: int|
            0 <= i < self.hexagons@.len() && 0 <= k < 5 && self.hexagons@[i] is Some ==> has_link(
                links(self.tethers@),
                #[trigger] self.hexagons@[i].unwrap().sides()[k],
            )
    }

    /// A hexagon and a hexagon above it that touches it have the same
    /// particles at the two corners where they meet.
    pub open spec fn corners_shared(&self, placed: Seq<bool>, count_x: int) -> bool {
        forall|slot: int|
            0 <= slot < placed.len() && #[trigger] placed[slot] ==> {
                let here = self.hexagons@[slot].unwrap();
                &&& is_placed(placed, top_left(count_x, slot)) ==> {
                    let other = self.hexagons@[top_left(count_x, slot).unwrap()].unwrap();
                    here.top_left == other.mid_right && here.mid_left == other.bottom_right
                }
                &&& is_placed(placed, top(count_x, slot)) ==> {
                    let other = self.hexagons@[top(count_x, slot).unwrap()].unwrap();
                    here.top_left == other.bottom_left && here.top_right == other.bottom_right
                }
                &&& is_placed(placed, top_right(count_x, slot)) ==> {
                    let other = self.hexagons@[top_right(count_x, slot).unwrap()].unwrap();
                    here.top_right == other.mid_left && here.mid_right == other.bottom_left
                }
            }
    }
}

/// In a mesh every tether joins two different particles that exist, and no
/// two tethers join the same two particles.
pub proof fn lemma_tethers_sound(lattice: Lattice, placed: Seq<bool>, count_x: int)
    requires
        lattice.is_mesh_of(placed, count_x),
    ensures
        lattice.tethers_sound(),
{
    let sides = sides_upto(lattice.hexagons@, placed.len() as int);
    let kept = first_links(sides);
    lemma_first_links(sides);
    lemma_sides_upto(lattice.hexagons@, placed.len() as int);
    assert forall|t: int| 0 <= t < lattice.tethers@.len() implies {
        &&& (#[trigger] lattice.tethers@[t]).p1_index < lattice.particles@.len()
        &&& lattice.tethers@[t].p2_index < lattice.particles@.len()
        &&& lattice.tethers@[t].p1_index != lattice.tethers@[t].p2_index
    } by {
        assert(kept[t] == lattice.tethers@[t]@);
        assert(sides.contains(kept[t]));
        let m = choose|m: int| 0 <= m < sides.len() && sides[m] == kept[t];
        let (i, k) = choose|i: int, k: int|
            0 <= i < placed.len() && 0 <= k < 5 && lattice.hexagons@[i] is Some
                && #[trigger] lattice.hexagons@[i].unwrap().sides()[k] == #[trigger] sides[m];
        lemma_sides_join_two_particles(
            lattice.particles@,
            lattice.hexagons@,
            placed,
            count_x,
            i,
            k,
        );
    }
    assert forall|s: int, t: int| 0 <= s < t < lattice.tethers@.len() implies !same_link(
        (#[trigger] lattice.tethers@[s])@,
        (#[trigger] lattice.tethers@[t])@,
    ) by {
        assert(kept[s] == lattice.tethers@[s]@);
        assert(kept[t] == lattice.tethers@[t]@);
    }
}

/// In a mesh each of the five sides that a hexagon ties has a tether.
pub proof fn lemma_sides_tethered(lattice: Lattice, placed: Seq<bool>, count_x: int)
    requires
        lattice.is_mesh_of(placed, count_x),
    ensures
        lattice.sides_tethered(),
{
    let sides = sides_upto(lattice.hexagons@, placed.len() as int);
    lemma_first_links(sides);
    lemma_sides_upto(lattice.hexagons@, placed.len() as int);
    assert forall|i: int, k: int|
        0 <= i < lattice.hexagons@.len() && 0 <= k < 5 && lattice.hexagons@[i] is Some implies has_link(
        links(lattice.tethers@),
        #[trigger] lattice.hexagons@[i].unwrap().sides()[k],
    ) by {
        let side = lattice.hexagons@[i].unwrap().sides()[k];
        assert(sides.contains(side));
        let m = choose|m: int| 0 <= m < sides.len() && sides[m] == side;
        assert(has_link(first_links(sides), sides[m]));
    }
}

/// In a mesh two hexagons that share a border have one particle, under one
/// index, at each end of it.
pub proof fn lemma_corners_shared(lattice: Lattice, placed: Seq<bool>, count_x: int)
    requires
        count_x > 0,
        lattice.is_mesh_of(placed, count_x),
    ensures
        lattice.corners_shared(placed, count_x),
{
    assert forall|slot: int| 0 <= slot < placed.len() && #[trigger] placed[slot] implies {
        let here = lattice.hexagons@[slot].unwrap();
        &&& is_placed(placed, top_left(count_x, slot)) ==> {
            let other = lattice.hexagons@[top_left(count_x, slot).unwrap()].unwrap();
            here.top_left == other.mid_right && here.mid_left == other.bottom_right
        }
        &&& is_placed(placed, top(count_x, slot)) ==> {
            let other = lattice.hexagons@[top(count_x, slot).unwrap()].unwrap();
            here.top_left == other.bottom_left && here.top_right == other.bottom_right
        }
        &&& is_placed(placed, top_right(count_x, slot)) ==> {
            let other = lattice.hexagons@[top_right(count_x, slot).unwrap()].unwrap();
            here.top_right == other.mid_left && here.mid_right == other.bottom_left
        }
    } by {
        lemma_shared_corners(lattice.particles@, lattice.hexagons@, placed, count_x, slot);
    }
}

/// In a mesh the side that closes a hexagon, from its middle left corner up
/// to its top left one, has a tether where a hexagon lies above it to the
/// left: that hexagon tied it as one of its own five.
pub proof fn lemma_closing_side_tethered(
    lattice: Lattice,
    placed: Seq<bool>,
    count_x: int,
    slot: int,
)
    requires
        count_x > 0,
        lattice.is_mesh_of(placed, count_x),
        0 <= slot < placed.len(),
        placed[slot],
        is_placed(placed, top_left(count_x, slot)),
    ensures
        has_link(
            links(lattice.tethers@),
            (
                lattice.hexagons@[slot].unwrap().mid_left as int,
                lattice.hexagons@[slot].unwrap().top_left as int,
            ),
        ),
{
    let j = top_left(count_x, slot).unwrap();
    let other = lattice.hexagons@[j].unwrap();
    lemma_corners_shared(lattice, placed, count_x);
    lemma_sides_tethered(lattice, placed, count_x);
    assert(other.sides()[2] == (other.mid_right as int, other.bottom_right as int));
    assert(has_link(links(lattice.tethers@), other.sides()[2]));
    let t = choose|t: int|
        0 <= t < links(lattice.tethers@).len() && same_link(
            #[trigger] links(lattice.tethers@)[t],
            other.sides()[2],
        );
    assert(same_link(
        links(lattice.tethers@)[t],
        (
            lattice.hexagons@[slot].unwrap().mid_left as int,
            lattice.hexagons@[slot].unwrap().top_left as int,
        ),
    ));
}

/// The mesh of a grid without a hexagon has no particle and no tether.
pub proof fn lemma_empty_mesh(lattice: Lattice, placed: Seq<bool>, count_x: int)
    requires
        lattice.is_mesh_of(placed, count_x),
        forall|i: int| 0 <= i < placed.len() ==> !placed[i],
    ensures
        lattice.particles@.len() == 0,
        lattice.tethers@.len() == 0,
{
    lemma_no_hexagon_no_particle(lattice.particles@, lattice.hexagons@, placed, count_x);
    lemma_tethers_sound(lattice, placed, count_x);
    if lattice.tethers@.len() > 0 {
        assert(lattice.tethers@[0].p1_index < lattice.particles@.len());
    }
}

/// Builds the mesh of a grid with `count_x` slots in a row and a hexagon in
/// each slot that `placed` marks.
pub fn build_lattice(count_x: usize, placed: &Vec<bool>) -> (lattice: Lattice)
    requires
        count_x > 0,
    ensures
        lattice.is_mesh_of(placed@, count_x as int),
        lattice.tethers_sound(),
        lattice.sides_tethered(),
        lattice.corners_shared(placed@, count_x as int),
        (forall|i: int| 0 <= i < placed@.len() ==> !placed@[i]) ==> lattice.particles@.len() == 0
            && lattice.tethers@.len() == 0,
{
    let (particles, hexagons) = place_particles(count_x, placed);
    let tethers = tie_particles(count_x, &particles, &hexagons, Ghost(placed@));
    let lattice = Lattice { particles, hexagons, tethers };
    proof {
        lemma_tethers_sound(lattice, placed@, count_x as int);
        lemma_sides_tethered(lattice, placed@, count_x as int);
        lemma_corners_shared(lattice, placed@, count_x as int);
        if forall|i: int| 0 <= i < placed@.len() ==> !placed@[i] {
            lemma_empty_mesh(lattice, placed@, count_x as int);
        }
    }
    lattice
}

/// Whether every centre names a pixel of the bitmap.
pub open spec fn centers_inside(bitmap: Bitmap, centers: Seq<(u32, u32)>) -> bool {
    forall|i: int|
        0 <= i < centers.len() ==> bitmap.contains(
            (#[trigger] centers[i]).0 as int,
            centers[i].1 as int,
        )
}

/// The slots that get a hexagon: those whose centre lies on a pixel that has
/// exactly the paint colour.
pub open spec fn placed_of(bitmap: Bitmap, centers: Seq<(u32, u32)>) -> Seq<bool> {
    Seq::new(
        centers.len(),
        |i: int| bitmap.pixel(centers[i].0 as int, centers[i].1 as int) == spec_draw_color(),
    )
}

/// Samples the bitmap under each centre: a slot is marked where the pixel has
/// the paint colour. `None` where a centre lies outside the bitmap.
pub fn sample_hexagons(bitmap: &Bitmap, centers: &Vec<(u32, u32)>) -> (sampled: Option<Vec<bool>>)
    ensures
        sampled is Some <==> centers_inside(*bitmap, centers@),
        sampled matches Some(placed) ==> placed@ == placed_of(*bitmap, centers@),
{
    let width = bitmap.width();
    let height = bitmap.height();
    let mut placed: Vec<bool> = Vec::new();
    let mut i: usize = 0;
    while i < centers.len()
        invariant
            width == bitmap.spec_width(),
            height == bitmap.spec_height(),
            i <= centers.len(),
            placed@.len() == i,
            forall|j: int|
                0 <= j < i ==> bitmap.contains(
                    (#[trigger] centers@[j]).0 as int,
                    centers@[j].1 as int,
                ),
            forall|j: int|
                0 <= j < i ==> #[trigger] placed@[j] == (bitmap.pixel(
                    centers@[j].0 as int,
                    centers@[j].1 as int,
                ) == spec_draw_color()),
        decreases centers.len() - i,
    {
        let (x, y) = centers[i];
        if x >= width || y >= height {
            return None;
        }
        placed.push(bitmap.get_pixel(x, y) == draw_color());
        i += 1;
    }
    proof {
        assert(placed@ =~= placed_of(*bitmap, centers@));
    }
    Some(placed)
}

/// Builds the mesh of the painted region. The grid has `count_y` rows of
/// `count_x` slots; `centers` gives, row by row, the pixel under the centre of
/// each slot. A slot gets a hexagon where that pixel has the paint colour.
pub fn create_particle_lattice(
    bitmap: &Bitmap,
    count_x: usize,
    count_y: usize,
    centers: &Vec<(u32, u32)>,
) -> (built: Result<Lattice, LatticeError>)
    ensures
        centers@.len() != count_x * count_y ==> built == Err::<Lattice, LatticeError>(
            LatticeError::GridMismatch,
        ),
        centers@.len() == count_x * count_y && !centers_inside(*bitmap, centers@) ==> built
            == Err::<Lattice, LatticeError>(LatticeError::CenterOutside),
        centers@.len() == count_x * count_y && centers_inside(*bitmap, centers@) ==> built is Ok,
        built matches Ok(lattice) ==> {
            &&& lattice.is_mesh_of(placed_of(*bitmap, centers@), count_x as int)
            &&& lattice.tethers_sound()
            &&& lattice.sides_tethered()
            &&& lattice.corners_shared(placed_of(*bitmap, centers@), count_x as int)
            &&& (forall|x: int, y: int|
                bitmap.contains(x, y) ==> bitmap.pixel(x, y) != spec_draw_color())
                ==> lattice.particles@.len() == 0 && lattice.tethers@.len() == 0
        },
{
    let slots = count_x.checked_mul(count_y);
    if slots != Some(centers.len()) {
        return Err(LatticeError::GridMismatch);
    }
    let placed = match sample_hexagons(bitmap, centers) {
        Some(placed) => placed,
        None => {
            return Err(LatticeError::CenterOutside);
        },
    };
    if count_x == 0 {
        let lattice = Lattice { particles: Vec::new(), hexagons: Vec::new(), tethers: Vec::new() };
        proof {
            assert(links(lattice.tethers@) =~= Seq::empty());
            assert(sides_upto(lattice.hexagons@, 0) =~= Seq::empty());
        }
        return Ok(lattice);
    }
    let lattice = build_lattice(count_x, &placed);
    Ok(lattice)
}

} // verus!
