use hex_softbody::bitmap::draw_color;
use hex_softbody::bitmap::Bitmap;
use hex_softbody::bitmap::Color;
use hex_softbody::grid::top_left_of;
use hex_softbody::grid::top_of;
use hex_softbody::grid::top_right_of;
use hex_softbody::lattice::build_lattice;
use hex_softbody::lattice::create_particle_lattice;
use hex_softbody::lattice::sample_hexagons;
use hex_softbody::lattice::Lattice;
use hex_softbody::lattice::LatticeError;
use hex_softbody::mesh::Corner;
use hex_softbody::mesh::Hexagon;
use hex_softbody::mesh::Tether;
use hex_softbody::mesh::Vertex;
use hex_softbody::mode::switch_modes;
use hex_softbody::mode::DrawMode;
use hex_softbody::mode::Mode;

fn vertex(cell: usize, corner: Corner) -> Vertex {
    Vertex { cell, corner }
}

fn tether(p1_index: usize, p2_index: usize) -> Tether {
    Tether { p1_index, p2_index }
}

fn corners(h: &Hexagon) -> [usize; 6] {
    [h.top_left, h.top_right, h.mid_right, h.bottom_right, h.bottom_left, h.mid_left]
}

fn assert_sound(lattice: &Lattice) {
    let count = lattice.particles.len();
    for (s, a) in lattice.tethers.iter().enumerate() {
        assert!(a.p1_index < count);
        assert!(a.p2_index < count);
        assert_ne!(a.p1_index, a.p2_index);
        for b in lattice.tethers.iter().skip(s + 1) {
            assert!(!(a.p1_index == b.p1_index && a.p2_index == b.p2_index));
            assert!(!(a.p1_index == b.p2_index && a.p2_index == b.p1_index));
        }
    }
    for (p, a) in lattice.particles.iter().enumerate() {
        for b in lattice.particles.iter().skip(p + 1) {
            assert_ne!(a, b);
        }
    }
}

#[test]
fn neighbours_of_slots_in_a_grid_of_three_columns() {
    // row 0: 0 1 2, row 1 (shifted right): 3 4 5, row 2: 6 7 8, row 3: 9 10 11
    assert_eq!(top_left_of(3, 0), None);
    assert_eq!(top_right_of(3, 1), None);
    assert_eq!(top_of(3, 2), None);
    assert_eq!(top_left_of(3, 3), Some(0));
    assert_eq!(top_right_of(3, 3), Some(1));
    assert_eq!(top_left_of(3, 5), Some(2));
    assert_eq!(top_right_of(3, 5), None);
    assert_eq!(top_of(3, 5), None);
    assert_eq!(top_left_of(3, 6), None);
    assert_eq!(top_right_of(3, 6), Some(3));
    assert_eq!(top_of(3, 6), Some(0));
    assert_eq!(top_left_of(3, 7), Some(3));
    assert_eq!(top_right_of(3, 7), Some(4));
    assert_eq!(top_of(3, 7), Some(1));
    assert_eq!(top_left_of(3, 11), Some(8));
    assert_eq!(top_right_of(3, 11), None);
    assert_eq!(top_of(3, 11), Some(5));
}

#[test]
fn neighbours_in_a_grid_of_one_column() {
    assert_eq!(top_left_of(1, 1), Some(0));
    assert_eq!(top_right_of(1, 1), None);
    assert_eq!(top_left_of(1, 2), None);
    assert_eq!(top_right_of(1, 2), Some(1));
    assert_eq!(top_of(1, 2), Some(0));
    assert_eq!(top_of(1, 1), None);
}

#[test]
fn a_single_hexagon_has_six_particles_and_five_tethers() {
    let lattice = build_lattice(1, &vec![true]);
    assert_eq!(
        lattice.particles,
        vec![
            vertex(0, Corner::TopLeft),
            vertex(0, Corner::TopRight),
            vertex(0, Corner::MidLeft),
            vertex(0, Corner::MidRight),
            vertex(0, Corner::BottomLeft),
            vertex(0, Corner::BottomRight),
        ]
    );
    let hexagon = lattice.hexagons[0].unwrap();
    assert_eq!(corners(&hexagon), [0, 1, 3, 5, 4, 2]);
    assert_eq!(
        lattice.tethers,
        vec![tether(0, 1), tether(1, 3), tether(3, 5), tether(5, 4), tether(4, 2)]
    );
    assert_sound(&lattice);
}

#[test]
fn the_corners_of_a_hexagon_by_name() {
    let hexagon = Hexagon {
        top_left: 10,
        top_right: 11,
        mid_right: 12,
        bottom_right: 13,
        bottom_left: 14,
        mid_left: 15,
    };
    assert_eq!(hexagon.corner(Corner::TopLeft), 10);
    assert_eq!(hexagon.corner(Corner::TopRight), 11);
    assert_eq!(hexagon.corner(Corner::MidRight), 12);
    assert_eq!(hexagon.corner(Corner::BottomRight), 13);
    assert_eq!(hexagon.corner(Corner::BottomLeft), 14);
    assert_eq!(hexagon.corner(Corner::MidLeft), 15);
}

#[test]
fn a_hexagon_shares_two_particles_with_the_one_above_it() {
    // one column: slot 0 in row 0, slot 2 straight below it in row 2
    let lattice = build_lattice(1, &vec![true, false, true]);
    assert_eq!(lattice.particles.len(), 10);
    let upper = lattice.hexagons[0].unwrap();
    let lower = lattice.hexagons[2].unwrap();
    assert!(lattice.hexagons[1].is_none());
    assert_eq!(lower.top_left, upper.bottom_left);
    assert_eq!(lower.top_right, upper.bottom_right);
    assert_eq!(
        lattice.particles[6..].to_vec(),
        vec![
            vertex(2, Corner::MidLeft),
            vertex(2, Corner::MidRight),
            vertex(2, Corner::BottomLeft),
            vertex(2, Corner::BottomRight),
        ]
    );
    // the shared side was tied by the upper hexagon, from right to left
    assert_eq!(lattice.tethers.len(), 9);
    assert_eq!(lattice.tethers[3], tether(upper.bottom_right, upper.bottom_left));
    assert_eq!(
        lattice.tethers[5..].to_vec(),
        vec![tether(5, 7), tether(7, 9), tether(9, 8), tether(8, 6)]
    );
    assert_sound(&lattice);
}

#[test]
fn a_hexagon_shares_two_particles_with_each_neighbour_in_the_row_above() {
    // two columns: slots 0 and 1 in row 0, slot 2 between and below them
    let lattice = build_lattice(2, &vec![true, true, true, false]);
    let left = lattice.hexagons[0].unwrap();
    let right = lattice.hexagons[1].unwrap();
    let below = lattice.hexagons[2].unwrap();
    assert_eq!(below.top_left, left.mid_right);
    assert_eq!(below.mid_left, left.bottom_right);
    assert_eq!(below.top_right, right.mid_left);
    assert_eq!(below.mid_right, right.bottom_left);
    assert_eq!(lattice.particles.len(), 14);
    assert_eq!(
        lattice.particles[12..].to_vec(),
        vec![vertex(2, Corner::BottomLeft), vertex(2, Corner::BottomRight)]
    );
    // of its five sides only the top one is new beside the three at the bottom
    assert_eq!(lattice.tethers.len(), 14);
    assert_eq!(
        lattice.tethers[10..].to_vec(),
        vec![
            tether(below.top_left, below.top_right),
            tether(below.mid_right, below.bottom_right),
            tether(below.bottom_right, below.bottom_left),
            tether(below.bottom_left, below.mid_left),
        ]
    );
    assert_sound(&lattice);
}

#[test]
fn hexagons_at_the_ends_of_rows_do_not_share_across_the_grid() {
    // slot 2 is the first of row 2 and slot 1 the last of row 0
    let lattice = build_lattice(2, &vec![false, true, false, false, true, false]);
    assert_eq!(lattice.particles.len(), 12);
    assert_eq!(lattice.tethers.len(), 10);
    assert_sound(&lattice);
    // slot 3 is the last of the shifted row 1, slot 4 the first of row 2
    let lattice = build_lattice(2, &vec![false, false, false, true, true, false]);
    let upper = lattice.hexagons[3].unwrap();
    let lower = lattice.hexagons[4].unwrap();
    assert_eq!(lattice.particles.len(), 12);
    for a in corners(&upper) {
        for b in corners(&lower) {
            assert_ne!(a, b);
        }
    }
}

#[test]
fn a_full_grid_has_no_duplicate_tether() {
    let lattice = build_lattice(4, &vec![true; 24]);
    assert_sound(&lattice);
    for slot in 0..24 {
        let here = lattice.hexagons[slot].unwrap();
        if let Some(j) = top_left_of(4, slot) {
            let other = lattice.hexagons[j].unwrap();
            assert_eq!(here.top_left, other.mid_right);
            assert_eq!(here.mid_left, other.bottom_right);
        }
        if let Some(j) = top_of(4, slot) {
            let other = lattice.hexagons[j].unwrap();
            assert_eq!(here.top_left, other.bottom_left);
            assert_eq!(here.top_right, other.bottom_right);
        }
        if let Some(j) = top_right_of(4, slot) {
            let other = lattice.hexagons[j].unwrap();
            assert_eq!(here.top_right, other.mid_left);
            assert_eq!(here.mid_right, other.bottom_left);
        }
        let c = corners(&here);
        for k in 0..5 {
            assert!(lattice.tethers.iter().any(|t| (t.p1_index == c[k]
                && t.p2_index == c[k + 1])
                || (t.p1_index == c[k + 1] && t.p2_index == c[k])));
        }
    }
}

#[test]
fn a_side_is_found_again_after_a_long_row_of_lone_hexagons() {
    // row 0 is full, row 1 empty, and in row 2 only the first slot is placed:
    // its top side was tied by slot 0, ten hexagons earlier
    let count_x = 10;
    let mut placed = vec![false; 3 * count_x];
    for slot in 0..count_x {
        placed[slot] = true;
    }
    placed[2 * count_x] = true;
    let lattice = build_lattice(count_x, &placed);
    assert_sound(&lattice);
    assert_eq!(lattice.particles.len(), 6 * count_x + 4);
    assert_eq!(lattice.tethers.len(), 5 * count_x + 4);
}

#[test]
fn a_grid_without_a_hexagon_gives_an_empty_mesh() {
    let lattice = build_lattice(3, &vec![false; 9]);
    assert!(lattice.particles.is_empty());
    assert!(lattice.tethers.is_empty());
    assert_eq!(lattice.hexagons, vec![None; 9]);
    let lattice = build_lattice(3, &vec![]);
    assert!(lattice.particles.is_empty());
    assert!(lattice.tethers.is_empty());
    assert!(lattice.hexagons.is_empty());
}

#[test]
fn sampling_marks_the_slots_on_painted_pixels() {
    let mut bitmap = Bitmap::new(4, 4).unwrap();
    bitmap.put_pixel(1, 2, draw_color());
    bitmap.put_pixel(3, 3, Color { r: 88, g: 96, b: 117, a: 254 });
    let centers = vec![(0, 0), (1, 2), (3, 3), (1, 2)];
    assert_eq!(sample_hexagons(&bitmap, &centers), Some(vec![false, true, false, true]));
    assert_eq!(sample_hexagons(&bitmap, &vec![(0, 0), (4, 0)]), None);
    assert_eq!(sample_hexagons(&bitmap, &vec![(0, 4)]), None);
    assert_eq!(sample_hexagons(&bitmap, &vec![]), Some(vec![]));
}

#[test]
fn an_unpainted_bitmap_gives_an_empty_mesh() {
    let bitmap = Bitmap::new(8, 8).unwrap();
    let centers = vec![(0, 0), (3, 0), (1, 2), (4, 2)];
    let lattice = create_particle_lattice(&bitmap, 2, 2, &centers).unwrap();
    assert!(lattice.particles.is_empty());
    assert!(lattice.tethers.is_empty());
    assert_eq!(lattice.hexagons, vec![None; 4]);
}

#[test]
fn a_grid_of_no_columns_gives_an_empty_mesh() {
    let mut bitmap = Bitmap::new(2, 2).unwrap();
    bitmap.put_pixel(0, 0, draw_color());
    let lattice = create_particle_lattice(&bitmap, 0, 5, &vec![]).unwrap();
    assert!(lattice.particles.is_empty());
    assert!(lattice.tethers.is_empty());
    assert!(lattice.hexagons.is_empty());
}

#[test]
fn the_lattice_of_a_painted_bitmap() {
    let mut bitmap = Bitmap::new(8, 8).unwrap();
    bitmap.put_pixel(0, 0, draw_color());
    bitmap.put_pixel(1, 2, draw_color());
    let centers = vec![(0, 0), (3, 0), (1, 2), (4, 2)];
    let lattice = create_particle_lattice(&bitmap, 2, 2, &centers).unwrap();
    assert_eq!(lattice, build_lattice(2, &vec![true, false, true, false]));
    let upper = lattice.hexagons[0].unwrap();
    let lower = lattice.hexagons[2].unwrap();
    assert_eq!(lower.top_left, upper.mid_right);
    assert_eq!(lower.mid_left, upper.bottom_right);
    assert_eq!(lattice.particles.len(), 10);
    // the side that the two share runs from the lower one's middle left corner
    // to its top left one, which is none of the five that it ties
    assert_eq!(lattice.tethers.len(), 10);
    assert_sound(&lattice);
}

#[test]
fn a_lattice_is_refused_for_a_grid_of_another_size() {
    let bitmap = Bitmap::new(8, 8).unwrap();
    let centers = vec![(0, 0), (3, 0), (1, 2)];
    assert_eq!(
        create_particle_lattice(&bitmap, 2, 2, &centers),
        Err(LatticeError::GridMismatch)
    );
    assert_eq!(
        create_particle_lattice(&bitmap, usize::MAX, 2, &centers),
        Err(LatticeError::GridMismatch)
    );
    assert_eq!(
        create_particle_lattice(&bitmap, 0, 2, &centers),
        Err(LatticeError::GridMismatch)
    );
}

#[test]
fn a_lattice_is_refused_for_a_centre_outside_the_bitmap() {
    let bitmap = Bitmap::new(8, 8).unwrap();
    let centers = vec![(0, 0), (8, 0)];
    assert_eq!(
        create_particle_lattice(&bitmap, 2, 1, &centers),
        Err(LatticeError::CenterOutside)
    );
}

#[test]
fn modes_and_brushes_alternate() {
    assert_eq!(switch_modes(Mode::Create), Mode::Sim);
    assert_eq!(switch_modes(Mode::Sim), Mode::Create);
    assert_eq!(DrawMode::Add.switched(), DrawMode::Remove);
    assert_eq!(DrawMode::Remove.switched(), DrawMode::Add);
    assert_eq!(DrawMode::Add.color(), Color { r: 88, g: 96, b: 117, a: 255 });
    assert_eq!(DrawMode::Remove.color(), Color { r: 0, g: 0, b: 0, a: 0 });
}
