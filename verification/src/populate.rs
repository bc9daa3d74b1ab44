//! Who and what is placed where in a freshly generated world: passengers, junk and beasts.
use crate::data::{all_junk, all_npcs, Junk, Npc};
use crate::geometry::Coord;
use crate::random::{choose_one, shuffle};
use rand_isaac::Isaac64Rng;
use vstd::prelude::*;

verus! {

/// `n` is `a` if it is smaller than `b`, and `b` otherwise.
pub open spec fn min_of(a: int, b: int) -> int {
    if a < b {
        a
    } else {
        b
    }
}

/// A piece of junk picked by the generator among every kind.
pub fn pick_junk(rng: &mut Isaac64Rng) -> (j: Junk)
    ensures
        all_junk().contains(j),
{
    let all = Junk::all();
    match choose_one(rng, &all) {
        Some(j) => j,
        None => Junk::RotaryPhone,
    }
}

/// The passengers waiting at each spawn place: the seven passengers are shuffled and, for each
/// place in order, the last one left is taken, until none is left.
pub fn assign_npcs(spawns: &Vec<Coord>, rng: &mut Isaac64Rng) -> (r: Vec<(Coord, Npc)>)
    ensures
        r@.len() == min_of(spawns@.len() as int, 7),
        exists|s: Seq<Npc>|
            #[trigger] s.to_multiset() == all_npcs().to_multiset() && s.len() == 7 && forall|i: int|
                0 <= i < r@.len() ==> r@[i] == (spawns@[i], s[6 - i]),
{
    let mut npcs = Npc::all();
    shuffle(rng, &mut npcs);
    let ghost s = npcs@;
    let mut r: Vec<(Coord, Npc)> = Vec::new();
    let mut k: usize = 0;
    while k < spawns.len()
        invariant
            s.len() == 7,
            k <= spawns@.len(),
            r@.len() == min_of(k as int, 7),
            npcs@ == s.take(7 - r@.len()),
            forall|i: int| 0 <= i < r@.len() ==> r@[i] == (spawns@[i], s[6 - i]),
        decreases spawns@.len() - k,
    {
        if let Some(npc) = npcs.pop() {
            proof {
                assert(npc == s[6 - r@.len()]);
                assert(npcs@ =~= s.take(7 - r@.len() - 1));
            }
            r.push((spawns[k], npc));
        }
        k = k + 1;
    }
    r
}

/// What is placed on a list of free cells: pieces of junk, then beasts.
#[derive(Clone, Debug)]
pub struct Scattered {
    pub junk: Vec<(Coord, Junk)>,
    pub beasts: Vec<Coord>,
}

/// `r` takes cells from the end of `s`: the first `nj` (up to what there is) get a piece of
/// junk each, and the next `nb` get a beast.
pub open spec fn scattered_from(r: Scattered, s: Seq<Coord>, nj: int, nb: int) -> bool {
    let j = min_of(nj, s.len() as int);
    &&& r.junk@.len() == j
    &&& r.beasts@.len() == min_of(nb, s.len() - j)
    &&& forall|i: int| 0 <= i < j ==> (#[trigger] r.junk@[i]).0 == s[s.len() - 1 - i] && all_junk().contains(r.junk@[i].1)
    &&& forall|i: int| 0 <= i < r.beasts@.len() ==> #[trigger] r.beasts@[i] == s[s.len() - 1 - j - i]
}

fn scatter(cells: &mut Vec<Coord>, num_junk: usize, num_beasts: usize, rng: &mut Isaac64Rng) -> (r: Scattered)
    ensures
        scattered_from(r, old(cells)@, num_junk as int, num_beasts as int),
        final(cells)@ == old(cells)@.take(old(cells)@.len() - r.junk@.len() - r.beasts@.len()),
{
    let ghost s = cells@;
    let mut junk: Vec<(Coord, Junk)> = Vec::new();
    let mut i: usize = 0;
    while i < num_junk
        invariant
            i <= num_junk,
            junk@.len() == min_of(i as int, s.len() as int),
            cells@ == s.take(s.len() - junk@.len()),
            forall|m: int| 0 <= m < junk@.len() ==> (#[trigger] junk@[m]).0 == s[s.len() - 1 - m] && all_junk().contains(junk@[m].1),
        decreases num_junk - i,
    {
        if let Some(c) = cells.pop() {
            let j = pick_junk(rng);
            proof {
                assert(c == s[s.len() - 1 - junk@.len()]);
                assert(cells@ =~= s.take(s.len() - junk@.len() - 1));
            }
            junk.push((c, j));
        }
        i = i + 1;
    }
    let ghost nj = junk@.len();
    let mut beasts: Vec<Coord> = Vec::new();
    let mut i: usize = 0;
    while i < num_beasts
        invariant
            nj == junk@.len(),
            nj == min_of(num_junk as int, s.len() as int),
            i <= num_beasts,
            beasts@.len() == min_of(i as int, s.len() - nj),
            cells@ == s.take(s.len() - nj - beasts@.len()),
            forall|m: int| 0 <= m < beasts@.len() ==> #[trigger] beasts@[m] == s[s.len() - 1 - nj - m],
        decreases num_beasts - i,
    {
        if let Some(c) = cells.pop() {
            proof {
                assert(c == s[s.len() - 1 - nj - beasts@.len()]);
                assert(cells@ =~= s.take(s.len() - nj - beasts@.len() - 1));
            }
            beasts.push(c);
        }
        i = i + 1;
    }
    Scattered { junk, beasts }
}

/// The things of a dungeon: its other room centres are shuffled, then three of them get a beast
/// and the next three a piece of junk.
pub fn populate_dungeon(other_room_centres: Vec<Coord>, rng: &mut Isaac64Rng) -> (r: Scattered)
    ensures
        exists|s: Seq<Coord>|
            #[trigger] s.to_multiset() == other_room_centres@.to_multiset() && s.len() == other_room_centres@.len()
                && ({
                let b = min_of(3, s.len() as int);
                &&& r.beasts@.len() == b
                &&& r.junk@.len() == min_of(3, s.len() - b)
                &&& forall|i: int| 0 <= i < b ==> #[trigger] r.beasts@[i] == s[s.len() - 1 - i]
                &&& forall|i: int|
                    0 <= i < r.junk@.len() ==> (#[trigger] r.junk@[i]).0 == s[s.len() - 1 - b - i] && all_junk().contains(
                        r.junk@[i].1,
                    )
            }),
{
    let mut centres = other_room_centres;
    shuffle(rng, &mut centres);
    let ghost s = centres@;
    let mut beasts: Vec<Coord> = Vec::new();
    let mut i: usize = 0;
    while i < 3
        invariant
            i <= 3,
            beasts@.len() == min_of(i as int, s.len() as int),
            centres@ == s.take(s.len() - beasts@.len()),
            forall|m: int| 0 <= m < beasts@.len() ==> #[trigger] beasts@[m] == s[s.len() - 1 - m],
        decreases 3 - i,
    {
        if let Some(c) = centres.pop() {
            proof {
                assert(c == s[s.len() - 1 - beasts@.len()]);
                assert(centres@ =~= s.take(s.len() - beasts@.len() - 1));
            }
            beasts.push(c);
        }
        i = i + 1;
    }
    let ghost b = beasts@.len();
    let mut junk: Vec<(Coord, Junk)> = Vec::new();
    let mut i: usize = 0;
    while i < 3
        invariant
            b == beasts@.len(),
            b == min_of(3, s.len() as int),
            i <= 3,
            junk@.len() == min_of(i as int, s.len() - b),
            centres@ == s.take(s.len() - b - junk@.len()),
            forall|m: int| 0 <= m < junk@.len() ==> (#[trigger] junk@[m]).0 == s[s.len() - 1 - b - m] && all_junk().contains(junk@[m].1),
        decreases 3 - i,
    {
        if let Some(c) = centres.pop() {
            let j = pick_junk(rng);
            proof {
                assert(c == s[s.len() - 1 - b - junk@.len()]);
                assert(centres@ =~= s.take(s.len() - b - junk@.len() - 1));
            }
            junk.push((c, j));
        }
        i = i + 1;
    }
    Scattered { junk, beasts }
}

/// The things of the swamp's islands: their free cells are shuffled, then fifteen of them get
/// a piece of junk and the next twenty a beast.
pub fn scatter_on_islands(island_coords: Vec<Coord>, rng: &mut Isaac64Rng) -> (r: Scattered)
    ensures
        exists|s: Seq<Coord>|
            #[trigger] s.to_multiset() == island_coords@.to_multiset() && s.len() == island_coords@.len()
                && scattered_from(r, s, 15, 20),
{
    let mut cells = island_coords;
    shuffle(rng, &mut cells);
    let ghost s = cells@;
    let r = scatter(&mut cells, 15, 20, rng);
    assert(scattered_from(r, s, 15, 20));
    r
}

/// The things of the city's buildings: from the end of their free floor cells, fifteen get a
/// piece of junk and the next twenty a beast; the generator then shuffles the cells left.
pub fn scatter_in_buildings(building_coords: Vec<Coord>, rng: &mut Isaac64Rng) -> (r: Scattered)
    ensures
        scattered_from(r, building_coords@, 15, 20),
{
    let mut cells = building_coords;
    let r = scatter(&mut cells, 15, 20, rng);
    shuffle(rng, &mut cells);
    r
}

} // verus!
