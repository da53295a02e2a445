use vstd::prelude::*;

use crate::world::World;

verus! {

/// Entity `e` exists and carries both a position and a renderable, so the
/// presentation layer can draw it.
pub open spec fn renderable_ent(w: World, e: int) -> bool {
    &&& 0 <= e < w.ents@.len()
    &&& w.ents@[e].position is Some
    &&& w.ents@[e].renderable is Some
}

/// The draw layer of entity `e`: the z of its position.
pub open spec fn layer_of(w: World, e: int) -> int {
    w.ents@[e].position->0.z as int
}

/// Read-only presentation order: the ids of all entities that carry both a
/// position and a renderable, each exactly once, in ascending draw-layer
/// order. The order of entities that share a layer is unspecified but
/// stable: ascending id.
pub fn render_order(world: &World) -> (ids: Vec<usize>)
    ensures
        forall|m: int| 0 <= m < ids@.len() ==> renderable_ent(*world, #[trigger] ids@[m] as int),
        forall|e: int| renderable_ent(*world, e) ==> ids@.contains(e as usize),
        forall|m1: int, m2: int| 0 <= m1 < m2 < ids@.len() ==> ids@[m1] != ids@[m2],
        forall|m1: int, m2: int|
            0 <= m1 < m2 < ids@.len() ==> layer_of(*world, ids@[m1] as int) <= layer_of(
                *world,
                ids@[m2] as int,
            ),
{
    let mut ids: Vec<usize> = Vec::new();
    let mut z: usize = 0;
    while z < 256
        invariant
            z <= 256,
            forall|m: int|
                0 <= m < ids@.len() ==> renderable_ent(*world, #[trigger] ids@[m] as int)
                    && layer_of(*world, ids@[m] as int) < z,
            forall|e: int|
                renderable_ent(*world, e) && layer_of(*world, e) < z ==> ids@.contains(e as usize),
            forall|m1: int, m2: int| 0 <= m1 < m2 < ids@.len() ==> ids@[m1] != ids@[m2],
            forall|m1: int, m2: int|
                0 <= m1 < m2 < ids@.len() ==> layer_of(*world, ids@[m1] as int) <= layer_of(
                    *world,
                    ids@[m2] as int,
                ),
        decreases 256 - z,
    {
        let mut i: usize = 0;
        while i < world.ents.len()
            invariant
                z < 256,
                i <= world.ents@.len(),
                forall|m: int|
                    0 <= m < ids@.len() ==> renderable_ent(*world, #[trigger] ids@[m] as int) && (
                    layer_of(*world, ids@[m] as int) < z || (layer_of(*world, ids@[m] as int) == z
                        && ids@[m] < i)),
                forall|e: int|
                    renderable_ent(*world, e) && layer_of(*world, e) < z ==> ids@.contains(
                        e as usize,
                    ),
                forall|e: int|
                    renderable_ent(*world, e) && layer_of(*world, e) == z && e < i
                        ==> ids@.contains(e as usize),
                forall|m1: int, m2: int| 0 <= m1 < m2 < ids@.len() ==> ids@[m1] != ids@[m2],
                forall|m1: int, m2: int|
                    0 <= m1 < m2 < ids@.len() ==> layer_of(*world, ids@[m1] as int) <= layer_of(
                        *world,
                        ids@[m2] as int,
                    ),
            decreases world.ents@.len() - i,
        {
            let ent = &world.ents[i];
            if ent.renderable.is_some() {
                match ent.position {
                    Some(p) => {
                        if p.z as usize == z {
                            let ghost old_ids = ids@;
                            ids.push(i);
                            proof {
                                assert forall|e: int|
                                    renderable_ent(*world, e) && layer_of(*world, e) == z && e < i
                                        + 1 implies ids@.contains(e as usize) by {
                                    if e < i {
                                        let m = choose|m: int|
                                            0 <= m < old_ids.len() && old_ids[m] == e as usize;
                                        assert(ids@[m] == e as usize);
                                    } else {
                                        assert(ids@[ids@.len() - 1] == i as usize);
                                    }
                                }
                                assert forall|e: int|
                                    renderable_ent(*world, e) && layer_of(*world, e)
                                        < z implies ids@.contains(e as usize) by {
                                    let m = choose|m: int|
                                        0 <= m < old_ids.len() && old_ids[m] == e as usize;
                                    assert(ids@[m] == e as usize);
                                }
                            }
                        }
                    },
                    None => {},
                }
            }
            i = i + 1;
        }
        z = z + 1;
    }
    proof {
        assert forall|e: int| renderable_ent(*world, e) implies ids@.contains(e as usize) by {
            assert(layer_of(*world, e) < 256);
        }
    }
    ids
}

} // verus!
