//! The tethers along the sides of the hexagons: a side that parts two
//! hexagons is tied once, by the hexagon that comes first in the scan.

use crate::corners::corner_source;
use crate::corners::corners_placed;
use crate::grid::lemma_neighbours_precede;
use crate::mesh::same_link;
use crate::mesh::Corner;
use crate::mesh::Hexagon;
use crate::mesh::Tether;
use crate::mesh::Vertex;
use vstd::prelude::*;

verus! {

/// The sides of the hexagons in the first `done` slots, in the order of the
/// scan.
pub open spec fn sides_upto(hexagons: Seq<Option<Hexagon>>, done: int) -> Seq<(int, int)>
    decreases done,
{
    if done <= 0 {
        Seq::empty()
    } else {
        let earlier = sides_upto(hexagons, done - 1);
        match hexagons[done - 1] {
            Some(hexagon) => earlier + hexagon.sides(),
            None => earlier,
        }
    }
}

/// Whether one of the pairs joins the same two particles as `link`.
pub open spec fn has_link(pairs: Seq<(int, int)>, link: (int, int)) -> bool {
    exists|j: int| 0 <= j < pairs.len() && same_link(#[trigger] pairs[j], link)
}

/// The pairs without those that join two particles which an earlier pair
/// joins already, in either order.
pub open spec fn first_links(pairs: Seq<(int, int)>) -> Seq<(int, int)>
    decreases pairs.len(),
{
    if pairs.len() == 0 {
        Seq::empty()
    } else {
        let kept = first_links(pairs.drop_last());
        if has_link(kept, pairs.last()) {
            kept
        } else {
            kept.push(pairs.last())
        }
    }
}

/// The pairs of indices that a list of tethers joins.
pub open spec fn links(tethers: Seq<Tether>) -> Seq<(int, int)> {
    tethers.map_values(|tether: Tether| tether@)
}

/// Adding one pair to the end adds it to the kept pairs unless they hold its
/// link already.
proof fn lemma_first_links_push(pairs: Seq<(int, int)>, link: (int, int))
    ensures
        first_links(pairs.push(link)) == if has_link(first_links(pairs), link) {
            first_links(pairs)
        } else {
            first_links(pairs).push(link)
        },
{
    assert(pairs.push(link).drop_last() =~= pairs);
}

/// Whether a tether from `oldest` on joins the two particles.
fn linked_since(tethers: &Vec<Tether>, oldest: usize, a: usize, b: usize) -> (found: bool)
    requires
        oldest <= tethers.len(),
    ensures
        found == exists|t: int|
            oldest <= t < tethers.len() && same_link(
                (#[trigger] tethers@[t])@,
                (a as int, b as int),
            ),
{
    let mut t: usize = oldest;
    while t < tethers.len()
        invariant
            oldest <= t <= tethers.len(),
            forall|u: int|
                oldest <= u < t ==> !same_link((#[trigger] tethers@[u])@, (a as int, b as int)),
        decreases tethers.len() - t,
    {
        let tether = tethers[t];
        if (tether.p1_index == a && tether.p2_index == b) || (tether.p1_index == b
            && tether.p2_index == a) {
            return true;
        }
        t += 1;
    }
    false
}

/// Whether a particle that the hexagon in slot `cell` created lies more than
/// two rows before `slot`, where no corner of the hexagon in `slot` can be.
fn out_of_reach(count_x: usize, cell: usize, slot: usize) -> (far: bool)
    ensures
        far == (cell + 2 * count_x < slot),
{
    if slot <= cell {
        false
    } else {
        let gap = slot - cell;
        gap > count_x && gap - count_x > count_x
    }
}

/// What holds of the tethers while the sides in `seen` have been looked at:
/// they are the first of each link among those sides, they join particles that
/// exist, and those before `oldest` start at a particle that lies out of reach
/// of the hexagon in `slot`.
spec fn sides_tied(
    particles: Seq<Vertex>,
    tethers: Seq<Tether>,
    seen: Seq<(int, int)>,
    oldest: int,
    count_x: int,
    slot: int,
) -> bool {
    &&& links(tethers) == first_links(seen)
    &&& 0 <= oldest <= tethers.len()
    &&& forall|t: int|
        0 <= t < tethers.len() ==> (#[trigger] tethers[t]).p1_index < particles.len()
            && tethers[t].p2_index < particles.len()
    &&& forall|t: int|
        0 <= t < oldest ==> particles[(#[trigger] tethers[t]).p1_index as int].cell + 2 * count_x
            < slot
}

/// Ties one side of a hexagon unless a tether joins its two particles already.
fn tie_side(
    particles: &Vec<Vertex>,
    tethers: &mut Vec<Tether>,
    oldest: usize,
    a: usize,
    b: usize,
    Ghost(seen): Ghost<Seq<(int, int)>>,
    Ghost(count_x): Ghost<int>,
    Ghost(slot): Ghost<int>,
)
    requires
        sides_tied(particles@, old(tethers)@, seen, oldest as int, count_x, slot),
        a < particles.len(),
        b < particles.len(),
        particles@[a as int].cell + 2 * count_x >= slot,
        particles@[b as int].cell + 2 * count_x >= slot,
    ensures
        sides_tied(
            particles@,
            final(tethers)@,
            seen.push((a as int, b as int)),
            oldest as int,
            count_x,
            slot,
        ),
{
    let ghost before = tethers@;
    let ghost link = (a as int, b as int);
    let found = linked_since(tethers, oldest, a, b);
    proof {
        lemma_first_links_push(seen, link);
        let kept = first_links(seen);
        if found {
            let t = choose|t: int|
                oldest <= t < before.len() && same_link((#[trigger] before[t])@, link);
            assert(kept[t] == before[t]@);
            assert(has_link(kept, link));
        } else {
            assert forall|j: int| 0 <= j < kept.len() implies !same_link(
                #[trigger] kept[j],
                link,
            ) by {
                assert(kept[j] == before[j]@);
                if j < oldest {
                    assert(particles@[before[j].p1_index as int].cell + 2 * count_x < slot);
                }
            }
        }
    }
    if !found {
        tethers.push(Tether { p1_index: a, p2_index: b });
        proof {
            assert(links(tethers@) =~= links(before).push(link));
        }
    }
}

/// Scans the hexagons row by row and ties the five sides of each, from the
/// top left corner round to the middle left one, unless a tether joins the
/// two particles already. Only the tethers that start at a particle of the
/// last two rows are looked through: no later hexagon reaches further back.
pub(crate) fn tie_particles(
    count_x: usize,
    particles: &Vec<Vertex>,
    hexagons: &Vec<Option<Hexagon>>,
    Ghost(placed): Ghost<Seq<bool>>,
) -> (tethers: Vec<Tether>)
    requires
        count_x > 0,
        corners_placed(particles@, hexagons@, placed, count_x as int, placed.len() as int),
    ensures
        links(tethers@) == first_links(sides_upto(hexagons@, hexagons@.len() as int)),
{
    let mut tethers: Vec<Tether> = Vec::new();
    let mut oldest: usize = 0;
    let mut i: usize = 0;
    proof {
        assert(links(tethers@) =~= Seq::empty());
        assert(sides_upto(hexagons@, 0) =~= Seq::empty());
    }
    while i < hexagons.len()
        invariant
            count_x > 0,
            i <= hexagons.len(),
            corners_placed(particles@, hexagons@, placed, count_x as int, placed.len() as int),
            sides_tied(
                particles@,
                tethers@,
                sides_upto(hexagons@, i as int),
                oldest as int,
                count_x as int,
                i as int,
            ),
        decreases hexagons.len() - i,
    {
        let ghost earlier = sides_upto(hexagons@, i as int);
        match hexagons[i] {
            Some(hexagon) => {
                while oldest < tethers.len() && out_of_reach(
                    count_x,
                    particles[tethers[oldest].p1_index].cell,
                    i,
                )
                    invariant
                        sides_tied(
                            particles@,
                            tethers@,
                            earlier,
                            oldest as int,
                            count_x as int,
                            i as int,
                        ),
                    decreases tethers.len() - oldest,
                {
                    oldest += 1;
                }
                proof {
                    lemma_neighbours_precede(count_x as int, i as int);
                    assert forall|c: Corner|
                        0 <= #[trigger] hexagon.at(c) < particles@.len() && particles@[hexagon.at(
                            c,
                        )].cell + 2 * count_x >= i by {
                        assert(hexagons@[i as int].unwrap().at(c) == hexagon.at(c));
                        assert(particles@[hexagon.at(c)]@ == corner_source(
                            placed,
                            count_x as int,
                            i as int,
                            c,
                        ));
                    }
                    assert(hexagon.at(Corner::TopLeft) == hexagon.top_left);
                    assert(hexagon.at(Corner::TopRight) == hexagon.top_right);
                    assert(hexagon.at(Corner::MidRight) == hexagon.mid_right);
                    assert(hexagon.at(Corner::BottomRight) == hexagon.bottom_right);
                    assert(hexagon.at(Corner::BottomLeft) == hexagon.bottom_left);
                    assert(hexagon.at(Corner::MidLeft) == hexagon.mid_left);
                }
                let ghost s0 = earlier;
                let ghost s1 = s0.push((hexagon.top_left as int, hexagon.top_right as int));
                let ghost s2 = s1.push((hexagon.top_right as int, hexagon.mid_right as int));
                let ghost s3 = s2.push((hexagon.mid_right as int, hexagon.bottom_right as int));
                let ghost s4 = s3.push((hexagon.bottom_right as int, hexagon.bottom_left as int));
                let ghost s5 = s4.push((hexagon.bottom_left as int, hexagon.mid_left as int));
                tie_side(
                    particles,
                    &mut tethers,
                    oldest,
                    hexagon.top_left,
                    hexagon.top_right,
                    Ghost(s0),
                    Ghost(count_x as int),
                    Ghost(i as int),
                );
                tie_side(
                    particles,
                    &mut tethers,
                    oldest,
                    hexagon.top_right,
                    hexagon.mid_right,
                    Ghost(s1),
                    Ghost(count_x as int),
                    Ghost(i as int),
                );
                tie_side(
                    particles,
                    &mut tethers,
                    oldest,
                    hexagon.mid_right,
                    hexagon.bottom_right,
                    Ghost(s2),
                    Ghost(count_x as int),
                    Ghost(i as int),
                );
                tie_side(
                    particles,
                    &mut tethers,
                    oldest,
                    hexagon.bottom_right,
                    hexagon.bottom_left,
                    Ghost(s3),
                    Ghost(count_x as int),
                    Ghost(i as int),
                );
                tie_side(
                    particles,
                    &mut tethers,
                    oldest,
                    hexagon.bottom_left,
                    hexagon.mid_left,
                    Ghost(s4),
                    Ghost(count_x as int),
                    Ghost(i as int),
                );
                proof {
                    assert(s5 =~= earlier + hexagon.sides());
                    assert(sides_upto(hexagons@, i + 1) == s5);
                }
            },
            None => {
                proof {
                    assert(sides_upto(hexagons@, i + 1) == earlier);
                }
            },
        }
        i += 1;
    }
    tethers
}

/// Among the kept pairs no two join the same two particles, each is one of
/// the pairs given, and each pair given has its link among them.
pub proof fn lemma_first_links(pairs: Seq<(int, int)>)
    ensures
        forall|j: int, k: int|
            0 <= j < k < first_links(pairs).len() ==> !same_link(
                #[trigger] first_links(pairs)[j],
                #[trigger] first_links(pairs)[k],
            ),
        forall|j: int|
            0 <= j < first_links(pairs).len() ==> pairs.contains(#[trigger] first_links(pairs)[j]),
        forall|m: int| 0 <= m < pairs.len() ==> has_link(first_links(pairs), #[trigger] pairs[m]),
    decreases pairs.len(),
{
    if pairs.len() > 0 {
        let shorter = pairs.drop_last();
        let kept = first_links(shorter);
        let all = first_links(pairs);
        lemma_first_links(shorter);
        assert forall|j: int| 0 <= j < all.len() implies pairs.contains(#[trigger] all[j]) by {
            if j < kept.len() {
                assert(shorter.contains(kept[j]));
                let m = choose|m: int| 0 <= m < shorter.len() && shorter[m] == kept[j];
                assert(pairs[m] == kept[j]);
            } else {
                assert(pairs[pairs.len() - 1] == all[j]);
            }
        }
        assert forall|m: int| 0 <= m < pairs.len() implies has_link(
            all,
            #[trigger] pairs[m],
        ) by {
            if m < shorter.len() {
                assert(pairs[m] == shorter[m]);
                let j = choose|j: int|
                    0 <= j < kept.len() && same_link(#[trigger] kept[j], shorter[m]);
                assert(same_link(all[j], pairs[m]));
            } else if has_link(kept, pairs.last()) {
            } else {
                assert(same_link(all[all.len() - 1], pairs[m]));
            }
        }
        assert forall|j: int, k: int| 0 <= j < k < all.len() implies !same_link(
            #[trigger] all[j],
            #[trigger] all[k],
        ) by {
            if k >= kept.len() {
                assert(same_link(kept[j], pairs.last()) ==> has_link(kept, pairs.last()));
            }
        }
    }
}

/// A pair among the sides of the first `done` slots is a side of a hexagon in
/// one of them, and every side of such a hexagon is among them.
pub proof fn lemma_sides_upto(hexagons: Seq<Option<Hexagon>>, done: int)
    requires
        0 <= done <= hexagons.len(),
    ensures
        forall|m: int|
            0 <= m < sides_upto(hexagons, done).len() ==> exists|i: int, k: int|
                0 <= i < done && 0 <= k < 5 && hexagons[i] is Some && #[trigger] hexagons[i].unwrap().sides()[k]
                    == #[trigger] sides_upto(hexagons, done)[m],
        forall|i: int, k: int|
            0 <= i < done && 0 <= k < 5 && hexagons[i] is Some ==> sides_upto(
                hexagons,
                done,
            ).contains(#[trigger] hexagons[i].unwrap().sides()[k]),
    decreases done,
{
    if done > 0 {
        lemma_sides_upto(hexagons, done - 1);
        let earlier = sides_upto(hexagons, done - 1);
        let all = sides_upto(hexagons, done);
        assert forall|m: int| 0 <= m < all.len() implies exists|i: int, k: int|
            0 <= i < done && 0 <= k < 5 && hexagons[i] is Some && #[trigger] hexagons[i].unwrap().sides()[k]
                == #[trigger] all[m] by {
            if m < earlier.len() {
                assert(all[m] == earlier[m]);
                let (i, k) = choose|i: int, k: int|
                    0 <= i < done - 1 && 0 <= k < 5 && hexagons[i] is Some
                        && #[trigger] hexagons[i].unwrap().sides()[k] == #[trigger] earlier[m];
                assert(hexagons[i].unwrap().sides()[k] == all[m]);
            } else {
                let k = m - earlier.len();
                assert(hexagons[done - 1].unwrap().sides()[k] == all[m]);
            }
        }
        assert forall|i: int, k: int|
            0 <= i < done && 0 <= k < 5 && hexagons[i] is Some implies all.contains(
            #[trigger] hexagons[i].unwrap().sides()[k],
        ) by {
            let side = hexagons[i].unwrap().sides()[k];
            if i < done - 1 {
                assert(earlier.contains(side));
                let m = choose|m: int| 0 <= m < earlier.len() && earlier[m] == side;
                assert(all[m] == side);
            } else {
                assert(all[earlier.len() + k] == side);
            }
        }
    }
}

} // verus!
