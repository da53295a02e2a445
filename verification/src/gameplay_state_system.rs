use vstd::prelude::*;

use crate::resources::{GamePlay, GamePlayState};
use crate::world::{box_at, some_box_at, spot_at, World};

verus! {

/// The box spots among the first `bound` entities are all covered by boxes.
pub open spec fn spots_covered_upto(w: World, bound: int) -> bool {
    forall|e: int, x: int, y: int|
        #[trigger] spot_at(w, e, x, y) && e < bound ==> some_box_at(w, x, y)
}

/// Every box-spot cell is covered by some box at the same coordinates.
/// Extra boxes on plain floor are ignored.
pub open spec fn all_spots_covered(w: World) -> bool {
    forall|e: int, x: int, y: int| #[trigger] spot_at(w, e, x, y) ==> some_box_at(w, x, y)
}

/// The win detector. Runs once per tick, after movement resolution.
pub struct GameplayStateSystem {}

impl GameplayStateSystem {
    /// Sets the game state to `Won` exactly when every box-spot cell is
    /// covered by a box, and back to `Playing` as soon as any spot loses its
    /// coverage. This check is coverage-based: it does not compare the box
    /// and spot counts, so boxes that outnumber the spots are ignored. A
    /// count-sensitive comparison of the two sorted position multisets is a
    /// possible alternative policy; coverage is the one implemented.
    pub fn run(&self, world: &World, gameplay: &mut GamePlay)
        ensures
            final(gameplay).moves_count == old(gameplay).moves_count,
            final(gameplay).state == (if all_spots_covered(*world) {
                GamePlayState::Won
            } else {
                GamePlayState::Playing
            }),
    {
        let mut won = true;
        let mut i: usize = 0;
        while i < world.ents.len()
            invariant
                i <= world.ents@.len(),
                won == spots_covered_upto(*world, i as int),
            decreases world.ents@.len() - i,
        {
            let ent = &world.ents[i];
            if ent.box_spot {
                match ent.position {
                    Some(p) => {
                        let covered = box_at_cell(world, p.x, p.y);
                        if !covered {
                            proof {
                                assert(spot_at(*world, i as int, p.x as int, p.y as int));
                                assert(!spots_covered_upto(*world, i + 1));
                            }
                            won = false;
                        } else {
                            proof {
                                if won {
                                    assert forall|e: int, x: int, y: int|
                                        #[trigger] spot_at(*world, e, x, y) && e < i + 1
                                            implies some_box_at(*world, x, y) by {
                                        if e == i {
                                            assert(x == p.x as int && y == p.y as int);
                                        }
                                    }
                                } else {
                                    assert(!spots_covered_upto(*world, i as int));
                                    let (e, x, y) = choose|e: int, x: int, y: int|
                                        spot_at(*world, e, x, y) && e < i && !some_box_at(
                                            *world,
                                            x,
                                            y,
                                        );
                                    assert(spot_at(*world, e, x, y) && e < i + 1);
                                }
                            }
                        }
                    },
                    None => {
                        proof {
                            lemma_upto_step_no_spot(*world, i as int, won);
                        }
                    },
                }
            } else {
                proof {
                    lemma_upto_step_no_spot(*world, i as int, won);
                }
            }
            i += 1;
        }
        proof {
            if won {
                assert forall|e: int, x: int, y: int|
                    #[trigger] spot_at(*world, e, x, y) implies some_box_at(*world, x, y) by {
                    assert(e < world.ents@.len());
                }
            }
        }
        if won {
            gameplay.state = GamePlayState::Won;
        } else {
            gameplay.state = GamePlayState::Playing;
        }
    }
}

/// Extending the scanned prefix past an entity that is no positioned box
/// spot does not change what is covered.
proof fn lemma_upto_step_no_spot(w: World, i: int, won: bool)
    requires
        0 <= i < w.ents@.len(),
        !(w.ents@[i].box_spot && w.ents@[i].position is Some),
        won == spots_covered_upto(w, i),
    ensures
        won == spots_covered_upto(w, i + 1),
{
    if won {
        assert forall|e: int, x: int, y: int|
            #[trigger] spot_at(w, e, x, y) && e < i + 1 implies some_box_at(w, x, y) by {
            assert(e != i);
        }
    } else {
        let (e, x, y) = choose|e: int, x: int, y: int|
            spot_at(w, e, x, y) && e < i && !some_box_at(w, x, y);
        assert(spot_at(w, e, x, y) && e < i + 1);
    }
}

/// Whether some box sits at cell (x, y).
fn box_at_cell(world: &World, x: u8, y: u8) -> (b: bool)
    ensures
        b == some_box_at(*world, x as int, y as int),
{
    let mut i: usize = 0;
    while i < world.ents.len()
        invariant
            i <= world.ents@.len(),
            forall|e: int| 0 <= e < i ==> !box_at(*world, e, x as int, y as int),
        decreases world.ents@.len() - i,
    {
        let ent = &world.ents[i];
        if ent.box_ {
            match ent.position {
                Some(p) => {
                    if p.x == x && p.y == y {
                        proof {
                            assert(box_at(*world, i as int, x as int, y as int));
                        }
                        return true;
                    }
                },
                None => {},
            }
        }
        i += 1;
    }
    proof {
        if some_box_at(*world, x as int, y as int) {
            let e = choose|e: int| box_at(*world, e, x as int, y as int);
        }
    }
    false
}

} // verus!
