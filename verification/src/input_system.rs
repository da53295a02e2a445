use vstd::prelude::*;

use crate::components::Position;
use crate::constants::{MAP_HEIGHT, MAP_WIDTH};
use crate::resources::{GamePlay, InputQueue, KeyCode};
use crate::world::{
    actor_in_map, actors_in_map, imm_at, in_map, is_player_ent, mov_at, player_x, player_y,
    some_imm_at, some_mov_at, tags_ok, the_player, unique_player, wf, Ent, World,
};

verus! {

/// Whether the key names one of the four push directions.
pub open spec fn is_dir(k: KeyCode) -> bool {
    k != KeyCode::Other
}

/// Displacement along x of a single push step in direction `k`.
pub open spec fn dx(k: KeyCode) -> int {
    match k {
        KeyCode::Left => -1,
        KeyCode::Right => 1,
        _ => 0,
    }
}

/// Displacement along y of a single push step in direction `k`.
pub open spec fn dy(k: KeyCode) -> int {
    match k {
        KeyCode::Up => -1,
        KeyCode::Down => 1,
        _ => 0,
    }
}

/// x coordinate of the `j`-th cell of the scan ray that starts at the
/// player's cell (px, py) and runs in direction `k`.
pub open spec fn cell_x(px: int, k: KeyCode, j: int) -> int {
    match k {
        KeyCode::Left => px - j,
        KeyCode::Right => px + j,
        _ => px,
    }
}

/// y coordinate of the `j`-th cell of the scan ray.
pub open spec fn cell_y(py: int, k: KeyCode, j: int) -> int {
    match k {
        KeyCode::Up => py - j,
        KeyCode::Down => py + j,
        _ => py,
    }
}

/// Number of cells on the scan ray from (px, py) to the map edge, both the
/// player's cell and the boundary cell included.
pub open spec fn ray_len(px: int, py: int, k: KeyCode) -> int {
    match k {
        KeyCode::Up => py + 1,
        KeyCode::Down => MAP_HEIGHT as int - py + 1,
        KeyCode::Left => px + 1,
        KeyCode::Right => MAP_WIDTH as int - px + 1,
        KeyCode::Other => 0,
    }
}

/// The first `n` ray cells each hold a movable entity.
pub open spec fn chain_clear(w: World, px: int, py: int, k: KeyCode, n: int) -> bool {
    forall|j: int|
        0 <= j < n ==> some_mov_at(w, #[trigger] cell_x(px, k, j), cell_y(py, k, j))
}

/// The push resolves at ray cell `n`: cells 0..n (the player and the pushed
/// chain) hold movable entities, and cell `n` lies on the map and is free of
/// both movable and immovable entities.
pub open spec fn commit_at(w: World, px: int, py: int, k: KeyCode, n: int) -> bool {
    &&& 1 <= n < ray_len(px, py, k)
    &&& chain_clear(w, px, py, k, n)
    &&& !some_mov_at(w, cell_x(px, k, n), cell_y(py, k, n))
    &&& !some_imm_at(w, cell_x(px, k, n), cell_y(py, k, n))
}

/// The push commits: some ray cell ends the chain and is free. Otherwise the
/// scan hits an immovable entity or runs off the map edge, and nothing moves.
pub open spec fn push_commits(w: World, px: int, py: int, k: KeyCode) -> bool {
    exists|n: int| commit_at(w, px, py, k, n)
}

/// Entity `e` belongs to the pushed chain: it is movable and sits on one of
/// the first `n` ray cells.
pub open spec fn in_chain(w: World, e: int, px: int, py: int, k: KeyCode, n: int) -> bool {
    exists|j: int|
        0 <= j < n && mov_at(w, e, #[trigger] cell_x(px, k, j), cell_y(py, k, j))
}

/// Record `ne` is record `oe` translated by exactly one step in direction
/// `k`: the position moves, the layer and every other component stay.
pub open spec fn shifted(oe: Ent, ne: Ent, k: KeyCode) -> bool {
    &&& oe.position is Some
    &&& ne.position is Some
    &&& ne.position->0.x as int == oe.position->0.x as int + dx(k)
    &&& ne.position->0.y as int == oe.position->0.y as int + dy(k)
    &&& ne.position->0.z == oe.position->0.z
    &&& ne.renderable == oe.renderable
    &&& ne.player == oe.player
    &&& ne.wall == oe.wall
    &&& ne.box_ == oe.box_
    &&& ne.box_spot == oe.box_spot
    &&& ne.movable == oe.movable
    &&& ne.immovable == oe.immovable
}

/// The committed move: every entity of the chain (player included) is
/// translated by one step, every other entity is untouched.
pub open spec fn moved_world(
    ow: World,
    nw: World,
    px: int,
    py: int,
    k: KeyCode,
    n: int,
) -> bool {
    &&& nw.ents@.len() == ow.ents@.len()
    &&& forall|e: int|
        0 <= e < ow.ents@.len() && in_chain(ow, e, px, py, k, n) ==> shifted(
            ow.ents@[e],
            #[trigger] nw.ents@[e],
            k,
        )
    &&& forall|e: int|
        0 <= e < ow.ents@.len() && !in_chain(ow, e, px, py, k, n) ==> #[trigger] nw.ents@[e]
            == ow.ents@[e]
}

/// What one consumed input `k` does to the world and the move counter.
pub open spec fn resolve_outcome(
    ow: World,
    nw: World,
    k: KeyCode,
    og: GamePlay,
    ng: GamePlay,
) -> bool {
    let px = player_x(ow);
    let py = player_y(ow);
    if is_dir(k) && push_commits(ow, px, py, k) {
        &&& forall|n: int|
            #[trigger] commit_at(ow, px, py, k, n) ==> moved_world(ow, nw, px, py, k, n)
        &&& ng.moves_count == og.moves_count + 1
        &&& ng.state == og.state
    } else {
        &&& nw == ow
        &&& ng == og
    }
}

/// Two ray cells with the same coordinates have the same index.
pub proof fn lemma_cell_inj(px: int, py: int, k: KeyCode, j1: int, j2: int)
    requires
        is_dir(k),
        cell_x(px, k, j1) == cell_x(px, k, j2),
        cell_y(py, k, j1) == cell_y(py, k, j2),
    ensures
        j1 == j2,
{
}

/// Every ray cell short of the boundary lies on the map.
pub proof fn lemma_ray_cell_in_map(px: int, py: int, k: KeyCode, j: int)
    requires
        is_dir(k),
        in_map(px, py),
        0 <= j < ray_len(px, py, k),
    ensures
        in_map(cell_x(px, k, j), cell_y(py, k, j)),
{
}

/// A push resolves at one cell only.
pub proof fn lemma_commit_unique(w: World, px: int, py: int, k: KeyCode, n1: int, n2: int)
    requires
        commit_at(w, px, py, k, n1),
        commit_at(w, px, py, k, n2),
    ensures
        n1 == n2,
{
    if n1 < n2 {
        assert(some_mov_at(w, cell_x(px, k, n1), cell_y(py, k, n1)));
    }
    if n2 < n1 {
        assert(some_mov_at(w, cell_x(px, k, n2), cell_y(py, k, n2)));
    }
}

/// Law: pushing the player toward an adjacent cell that holds an immovable
/// entity and no movable one commits nothing. By the resolver's contract,
/// every position and the move counter then stay exactly as they were.
pub proof fn lemma_push_into_wall(w: World, px: int, py: int, k: KeyCode)
    requires
        is_dir(k),
        some_imm_at(w, cell_x(px, k, 1), cell_y(py, k, 1)),
        !some_mov_at(w, cell_x(px, k, 1), cell_y(py, k, 1)),
    ensures
        !push_commits(w, px, py, k),
{
    assert forall|n: int| !commit_at(w, px, py, k, n) by {
        if commit_at(w, px, py, k, n) {
            if n >= 2 {
                assert(some_mov_at(w, cell_x(px, k, 1), cell_y(py, k, 1)));
            }
        }
    }
}

/// Law: pushing the player toward a single adjacent movable box with a free
/// on-map cell beyond it commits at ray cell 2, and the pushed chain is
/// exactly the player's cell and the box's cell. By the resolver's contract,
/// player and box each shift one step and the move counter rises by one.
pub proof fn lemma_push_single_box(w: World, px: int, py: int, k: KeyCode)
    requires
        is_dir(k),
        some_mov_at(w, px, py),
        some_mov_at(w, cell_x(px, k, 1), cell_y(py, k, 1)),
        in_map(cell_x(px, k, 2), cell_y(py, k, 2)),
        !some_mov_at(w, cell_x(px, k, 2), cell_y(py, k, 2)),
        !some_imm_at(w, cell_x(px, k, 2), cell_y(py, k, 2)),
    ensures
        commit_at(w, px, py, k, 2),
        push_commits(w, px, py, k),
        forall|e: int|
            #[trigger] in_chain(w, e, px, py, k, 2) <==> mov_at(w, e, px, py) || mov_at(
                w,
                e,
                cell_x(px, k, 1),
                cell_y(py, k, 1),
            ),
{
    assert(cell_x(px, k, 0) == px && cell_y(py, k, 0) == py);
    assert(chain_clear(w, px, py, k, 2)) by {
        assert forall|j: int|
            0 <= j < 2 implies some_mov_at(w, #[trigger] cell_x(px, k, j), cell_y(py, k, j)) by {
            if j == 0 {
                assert(some_mov_at(w, cell_x(px, k, 0), cell_y(py, k, 0)));
            } else {
                assert(j == 1);
            }
        }
    }
    assert(2 < ray_len(px, py, k));
    assert(commit_at(w, px, py, k, 2));
    assert forall|e: int|
        #[trigger] in_chain(w, e, px, py, k, 2) <==> mov_at(w, e, px, py) || mov_at(
            w,
            e,
            cell_x(px, k, 1),
            cell_y(py, k, 1),
        ) by {
        if in_chain(w, e, px, py, k, 2) {
            let j = choose|j: int|
                0 <= j < 2 && mov_at(w, e, #[trigger] cell_x(px, k, j), cell_y(py, k, j));
            if j == 0 {
                assert(mov_at(w, e, px, py));
            } else {
                assert(mov_at(w, e, cell_x(px, k, 1), cell_y(py, k, 1)));
            }
        }
        if mov_at(w, e, px, py) {
            assert(mov_at(w, e, cell_x(px, k, 0), cell_y(py, k, 0)));
            assert(in_chain(w, e, px, py, k, 2));
        }
        if mov_at(w, e, cell_x(px, k, 1), cell_y(py, k, 1)) {
            assert(in_chain(w, e, px, py, k, 2));
        }
    }
}

/// Law: pushing a chain of `n` movable boxes whose far end is backed by an
/// immovable entity commits nothing — the whole chain, player included,
/// stays where it is and the move counter does not rise.
pub proof fn lemma_push_blocked_chain(w: World, px: int, py: int, k: KeyCode, n: int)
    requires
        is_dir(k),
        n >= 1,
        forall|j: int|
            1 <= j <= n ==> some_mov_at(w, #[trigger] cell_x(px, k, j), cell_y(py, k, j)),
        some_imm_at(w, cell_x(px, k, n + 1), cell_y(py, k, n + 1)),
        !some_mov_at(w, cell_x(px, k, n + 1), cell_y(py, k, n + 1)),
    ensures
        !push_commits(w, px, py, k),
{
    assert forall|m: int| !commit_at(w, px, py, k, m) by {
        if commit_at(w, px, py, k, m) {
            if m <= n {
                assert(some_mov_at(w, cell_x(px, k, m), cell_y(py, k, m)));
            } else if m > n + 1 {
                assert(chain_clear(w, px, py, k, m));
                assert(some_mov_at(w, cell_x(px, k, n + 1), cell_y(py, k, n + 1)));
            }
        }
    }
}

/// After a committed move, a movable entity of the new world either came
/// from the chain (and sits one cell further along the ray) or was untouched
/// (and sits off the swept stretch of the ray).
proof fn lemma_new_mov_origin(
    ow: World,
    nw: World,
    px: int,
    py: int,
    k: KeyCode,
    n: int,
    e: int,
    x: int,
    y: int,
)
    requires
        wf(ow),
        is_dir(k),
        commit_at(ow, px, py, k, n),
        moved_world(ow, nw, px, py, k, n),
        mov_at(nw, e, x, y),
    ensures
        in_chain(ow, e, px, py, k, n) ==> exists|j: int|
            1 <= j <= n && x == #[trigger] cell_x(px, k, j) && y == cell_y(py, k, j) && mov_at(
                ow,
                e,
                cell_x(px, k, j - 1),
                cell_y(py, k, j - 1),
            ),
        !in_chain(ow, e, px, py, k, n) ==> mov_at(ow, e, x, y) && (forall|j: int|
            0 <= j <= n ==> !(x == #[trigger] cell_x(px, k, j) && y == cell_y(py, k, j))),
{
    if in_chain(ow, e, px, py, k, n) {
        let j = choose|j: int|
            0 <= j < n && mov_at(ow, e, #[trigger] cell_x(px, k, j), cell_y(py, k, j));
        assert(shifted(ow.ents@[e], nw.ents@[e], k));
        assert(x == cell_x(px, k, j + 1) && y == cell_y(py, k, j + 1));
        assert(mov_at(ow, e, cell_x(px, k, (j + 1) - 1), cell_y(py, k, (j + 1) - 1)));
        assert(1 <= j + 1 <= n && x == cell_x(px, k, j + 1) && y == cell_y(py, k, j + 1));
    } else {
        assert(nw.ents@[e] == ow.ents@[e]);
        assert(mov_at(ow, e, x, y));
        assert forall|j: int|
            0 <= j <= n implies !(x == cell_x(px, k, j) && y == cell_y(py, k, j)) by {
            if x == cell_x(px, k, j) && y == cell_y(py, k, j) {
                if j < n {
                    assert(in_chain(ow, e, px, py, k, n));
                } else {
                    assert(some_mov_at(ow, cell_x(px, k, n), cell_y(py, k, n)));
                }
            }
        }
    }
}

/// A committed move preserves well-formedness: every entity stays on the
/// map, and no cell ends up with two movable or two immovable entities.
proof fn lemma_wf_after_move(ow: World, nw: World, px: int, py: int, k: KeyCode, n: int)
    requires
        wf(ow),
        is_dir(k),
        commit_at(ow, px, py, k, n),
        moved_world(ow, nw, px, py, k, n),
    ensures
        wf(nw),
{
    // the player's cell lies on the map
    assert(cell_x(px, k, 0) == px && cell_y(py, k, 0) == py);
    assert(some_mov_at(ow, px, py));
    let e0 = choose|e: int| mov_at(ow, e, px, py);
    assert(actor_in_map(ow.ents@[e0]));
    assert(in_map(px, py));

    // tag rules carry over record by record
    assert forall|i: int| 0 <= i < nw.ents@.len() implies tags_ok(#[trigger] nw.ents@[i]) by {
        assert(tags_ok(ow.ents@[i]));
        if in_chain(ow, i, px, py, k, n) {
            assert(shifted(ow.ents@[i], nw.ents@[i], k));
        }
    }

    // bounds: a shifted entity lands on ray cell j + 1 <= n, still on the map
    assert forall|i: int| 0 <= i < nw.ents@.len() implies actor_in_map(
        #[trigger] nw.ents@[i],
    ) by {
        assert(actor_in_map(ow.ents@[i]));
        if in_chain(ow, i, px, py, k, n) {
            let j = choose|j: int|
                0 <= j < n && mov_at(ow, i, #[trigger] cell_x(px, k, j), cell_y(py, k, j));
            assert(shifted(ow.ents@[i], nw.ents@[i], k));
            lemma_ray_cell_in_map(px, py, k, j + 1);
            assert(nw.ents@[i].position->0.x as int == cell_x(px, k, j + 1));
            assert(nw.ents@[i].position->0.y as int == cell_y(py, k, j + 1));
        }
    }

    // at most one movable entity per cell
    assert forall|e1: int, e2: int, x: int, y: int|
        #[trigger] mov_at(nw, e1, x, y) && #[trigger] mov_at(nw, e2, x, y) implies e1 == e2 by {
        lemma_new_mov_origin(ow, nw, px, py, k, n, e1, x, y);
        lemma_new_mov_origin(ow, nw, px, py, k, n, e2, x, y);
        if in_chain(ow, e1, px, py, k, n) && in_chain(ow, e2, px, py, k, n) {
            let j1 = choose|j: int|
                1 <= j <= n && x == #[trigger] cell_x(px, k, j) && y == cell_y(py, k, j)
                    && mov_at(ow, e1, cell_x(px, k, j - 1), cell_y(py, k, j - 1));
            let j2 = choose|j: int|
                1 <= j <= n && x == #[trigger] cell_x(px, k, j) && y == cell_y(py, k, j)
                    && mov_at(ow, e2, cell_x(px, k, j - 1), cell_y(py, k, j - 1));
            lemma_cell_inj(px, py, k, j1, j2);
            assert(mov_at(ow, e1, cell_x(px, k, j1 - 1), cell_y(py, k, j1 - 1)));
            assert(mov_at(ow, e2, cell_x(px, k, j1 - 1), cell_y(py, k, j1 - 1)));
        } else if in_chain(ow, e1, px, py, k, n) && !in_chain(ow, e2, px, py, k, n) {
            let j1 = choose|j: int|
                1 <= j <= n && x == #[trigger] cell_x(px, k, j) && y == cell_y(py, k, j)
                    && mov_at(ow, e1, cell_x(px, k, j - 1), cell_y(py, k, j - 1));
            assert(!(x == cell_x(px, k, j1) && y == cell_y(py, k, j1)));
        } else if !in_chain(ow, e1, px, py, k, n) && in_chain(ow, e2, px, py, k, n) {
            let j2 = choose|j: int|
                1 <= j <= n && x == #[trigger] cell_x(px, k, j) && y == cell_y(py, k, j)
                    && mov_at(ow, e2, cell_x(px, k, j - 1), cell_y(py, k, j - 1));
            assert(!(x == cell_x(px, k, j2) && y == cell_y(py, k, j2)));
        } else {
            assert(mov_at(ow, e1, x, y) && mov_at(ow, e2, x, y));
        }
    }

    // immovable entities never move: the chain holds movable entities only,
    // and the tag rules keep the two flags apart
    assert forall|e: int, x: int, y: int| #[trigger] imm_at(nw, e, x, y) implies imm_at(
        ow,
        e,
        x,
        y,
    ) by {
        if in_chain(ow, e, px, py, k, n) {
            assert(tags_ok(ow.ents@[e]));
            let j = choose|j: int|
                0 <= j < n && mov_at(ow, e, #[trigger] cell_x(px, k, j), cell_y(py, k, j));
            assert(ow.ents@[e].movable);
            assert(shifted(ow.ents@[e], nw.ents@[e], k));
        } else {
            assert(nw.ents@[e] == ow.ents@[e]);
        }
    }
}

/// A committed move keeps the unique player unique: the player tag and the
/// presence of a position are untouched by a shift.
proof fn lemma_player_preserved(ow: World, nw: World, px: int, py: int, k: KeyCode, n: int)
    requires
        unique_player(ow),
        moved_world(ow, nw, px, py, k, n),
    ensures
        unique_player(nw),
{
    assert forall|e: int| #[trigger] is_player_ent(nw, e) implies is_player_ent(ow, e) by {
        if in_chain(ow, e, px, py, k, n) {
            assert(shifted(ow.ents@[e], nw.ents@[e], k));
        } else {
            assert(nw.ents@[e] == ow.ents@[e]);
        }
    }
    assert forall|e: int| #[trigger] is_player_ent(ow, e) implies is_player_ent(nw, e) by {
        if in_chain(ow, e, px, py, k, n) {
            assert(shifted(ow.ents@[e], nw.ents@[e], k));
        } else {
            assert(nw.ents@[e] == ow.ents@[e]);
        }
    }
    let ep = choose|e: int| is_player_ent(ow, e);
    assert(is_player_ent(nw, ep));
}

/// Slot of cell (x, y) in a flat position index over the whole map.
pub open spec fn grid_idx(x: int, y: int) -> int {
    x * (MAP_HEIGHT as int + 1) + y
}

/// Every map cell's slot lies inside the index.
proof fn lemma_grid_idx_bounds(x: int, y: int)
    requires
        in_map(x, y),
    ensures
        0 <= grid_idx(x, y) < (MAP_WIDTH as int + 1) * (MAP_HEIGHT as int + 1),
{
}

/// Distinct map cells use distinct index slots.
proof fn lemma_grid_idx_inj(x1: int, y1: int, x2: int, y2: int)
    requires
        in_map(x1, y1),
        in_map(x2, y2),
        grid_idx(x1, y1) == grid_idx(x2, y2),
    ensures
        x1 == x2 && y1 == y2,
{
}

/// What one slot of a freshly built position index holds: the movable
/// (or, for `imm`, the immovable) entity of that cell, if there is one.
pub open spec fn index_entry_ok(w: World, imm: bool, x: int, y: int, entry: Option<usize>) -> bool {
    match entry {
        Some(e) => if imm {
            imm_at(w, e as int, x, y)
        } else {
            mov_at(w, e as int, x, y)
        },
        None => if imm {
            !some_imm_at(w, x, y)
        } else {
            !some_mov_at(w, x, y)
        },
    }
}

/// Same, mid-construction: only the first `bound` entities are indexed.
pub open spec fn index_entry_upto(
    w: World,
    imm: bool,
    bound: int,
    x: int,
    y: int,
    entry: Option<usize>,
) -> bool {
    match entry {
        Some(e) => e < bound && if imm {
            imm_at(w, e as int, x, y)
        } else {
            mov_at(w, e as int, x, y)
        },
        None => (forall|e: int| 0 <= e < bound ==> !(#[trigger] imm_at(w, e, x, y) && imm)) && (
        forall|e: int| 0 <= e < bound ==> !(#[trigger] mov_at(w, e, x, y) && !imm)),
    }
}

/// The id of the unique player entity.
fn find_player(world: &World) -> (e: usize)
    requires
        unique_player(*world),
    ensures
        is_player_ent(*world, e as int),
        e as int == the_player(*world),
{
    let mut i: usize = 0;
    while i < world.ents.len()
        invariant
            unique_player(*world),
            i <= world.ents@.len(),
            forall|e: int| 0 <= e < i ==> !is_player_ent(*world, e),
        decreases world.ents@.len() - i,
    {
        if world.ents[i].player && world.ents[i].position.is_some() {
            proof {
                let w = choose|e: int| is_player_ent(*world, e);
                assert(is_player_ent(*world, i as int) && is_player_ent(*world, the_player(*world)));
            }
            return i;
        }
        i += 1;
    }
    proof {
        let w = choose|e: int| is_player_ent(*world, e);
        assert(false);
    }
    unreached()
}

/// Exec slot computation for the flat position index.
fn grid_slot(x: u8, y: u8) -> (i: usize)
    requires
        in_map(x as int, y as int),
    ensures
        i == grid_idx(x as int, y as int),
        i < (MAP_WIDTH as int + 1) * (MAP_HEIGHT as int + 1),
{
    proof {
        assert(MAP_WIDTH as int == 8 && MAP_HEIGHT as int == 9);
        assert(x <= 8 && y <= 9);
    }
    let s: usize = x as usize * 10 + y as usize;
    proof {
        assert(s == grid_idx(x as int, y as int));
    }
    s
}

/// Builds one position index by a single scan over all entities: slot
/// (x, y) names the movable (for `imm == true`: the immovable) entity of
/// that cell. Rebuilt fresh every tick; the grid occupancy invariant makes
/// each slot single-valued.
fn build_index(world: &World, imm: bool) -> (g: Vec<Option<usize>>)
    requires
        wf(*world),
    ensures
        g@.len() == (MAP_WIDTH as int + 1) * (MAP_HEIGHT as int + 1),
        forall|x: int, y: int|
            in_map(x, y) ==> index_entry_ok(*world, imm, x, y, #[trigger] g@[grid_idx(x, y)]),
{
    let cells: usize = (MAP_WIDTH as usize + 1) * (MAP_HEIGHT as usize + 1);
    let mut g: Vec<Option<usize>> = Vec::new();
    let mut c: usize = 0;
    while c < cells
        invariant
            g@.len() == c,
            c <= cells,
            cells == (MAP_WIDTH as int + 1) * (MAP_HEIGHT as int + 1),
            forall|s: int| 0 <= s < c ==> g@[s] is None,
        decreases cells - c,
    {
        g.push(None);
        c += 1;
    }
    let mut i: usize = 0;
    while i < world.ents.len()
        invariant
            wf(*world),
            i <= world.ents@.len(),
            g@.len() == (MAP_WIDTH as int + 1) * (MAP_HEIGHT as int + 1),
            forall|x: int, y: int|
                in_map(x, y) ==> index_entry_upto(
                    *world,
                    imm,
                    i as int,
                    x,
                    y,
                    #[trigger] g@[grid_idx(x, y)],
                ),
        decreases world.ents@.len() - i,
    {
        let ent = &world.ents[i];
        let tagged = if imm {
            ent.immovable
        } else {
            ent.movable
        };
        if tagged {
            match ent.position {
                Some(p) => {
                    proof {
                        assert(actor_in_map(world.ents@[i as int]));
                    }
                    let s = grid_slot(p.x, p.y);
                    let ghost gpre = g@;
                    g[s] = Some(i);
                    proof {
                        assert forall|x: int, y: int| in_map(x, y) implies index_entry_upto(
                            *world,
                            imm,
                            i + 1,
                            x,
                            y,
                            #[trigger] g@[grid_idx(x, y)],
                        ) by {
                            lemma_grid_idx_bounds(x, y);
                            lemma_grid_idx_bounds(p.x as int, p.y as int);
                            if grid_idx(x, y) == grid_idx(p.x as int, p.y as int) {
                                lemma_grid_idx_inj(x, y, p.x as int, p.y as int);
                                if imm {
                                    assert(imm_at(*world, i as int, x, y));
                                } else {
                                    assert(mov_at(*world, i as int, x, y));
                                }
                            } else {
                                assert(g@[grid_idx(x, y)] == gpre[grid_idx(x, y)]);
                            }
                        }
                    }
                },
                None => {
                    proof {
                        assert forall|x: int, y: int| in_map(x, y) implies index_entry_upto(
                            *world,
                            imm,
                            i + 1,
                            x,
                            y,
                            #[trigger] g@[grid_idx(x, y)],
                        ) by {}
                    }
                },
            }
        } else {
            proof {
                assert forall|x: int, y: int| in_map(x, y) implies index_entry_upto(
                    *world,
                    imm,
                    i + 1,
                    x,
                    y,
                    #[trigger] g@[grid_idx(x, y)],
                ) by {}
            }
        }
        i += 1;
    }
    proof {
        assert forall|x: int, y: int| in_map(x, y) implies index_entry_ok(
            *world,
            imm,
            x,
            y,
            #[trigger] g@[grid_idx(x, y)],
        ) by {
            if g@[grid_idx(x, y)] is None {
                if imm {
                    if some_imm_at(*world, x, y) {
                        let e = choose|e: int| imm_at(*world, e, x, y);
                    }
                } else {
                    if some_mov_at(*world, x, y) {
                        let e = choose|e: int| mov_at(*world, e, x, y);
                    }
                }
            }
        }
    }
    g
}

/// The first `m` entries of the pending-shift list `s` include entity `e`.
pub open spec fn prefix_contains(s: Seq<usize>, m: int, e: int) -> bool {
    exists|mm: int| 0 <= mm < m && s[mm] == e
}

/// The movement resolver. Each call consumes at most one queued input and
/// resolves it against the current level.
pub struct InputSystem {}

impl InputSystem {
    /// Consumes the most-recently-enqueued input, if any, and resolves the
    /// push: the ray from the player's cell is scanned outward; a chain of
    /// movable entities followed by a free cell commits (every chain entity
    /// shifts one step and the move counter rises by one); an immovable
    /// entity on the scan, or a chain running off the map edge, aborts with
    /// nothing moved. A non-directional key is consumed without effect.
    /// Draining the queue most-recent-first is a deliberate policy choice:
    /// older buffered inputs wait, and at most one event resolves per tick.
    #[verifier::loop_isolation(false)]
    pub fn run(&self, world: &mut World, input_queue: &mut InputQueue, gameplay: &mut GamePlay)
        requires
            wf(*old(world)),
            unique_player(*old(world)),
            old(gameplay).moves_count < u32::MAX,
        ensures
            wf(*final(world)),
            unique_player(*final(world)),
            actors_in_map(*final(world)),
            final(gameplay).state == old(gameplay).state,
            old(input_queue).keys@.len() == 0 ==> *final(world) == *old(world)
                && *final(input_queue) == *old(input_queue)
                && *final(gameplay) == *old(gameplay),
            old(input_queue).keys@.len() > 0 ==> final(input_queue).keys@
                == old(input_queue).keys@.drop_last() && resolve_outcome(
                *old(world),
                *final(world),
                old(input_queue).keys@.last(),
                *old(gameplay),
                *final(gameplay),
            ),
    {
        let p_id = find_player(world);
        let ppos = match world.ents[p_id].position {
            Some(p) => p,
            None => unreached(),
        };
        let px = ppos.x;
        let py = ppos.y;
        proof {
            assert(px as int == player_x(*world) && py as int == player_y(*world));
            assert(tags_ok(world.ents@[p_id as int]));
            assert(mov_at(*world, p_id as int, px as int, py as int));
            assert(actor_in_map(world.ents@[p_id as int]));
            assert(in_map(px as int, py as int));
        }
        if input_queue.keys.len() == 0 {
            return ;
        }
        let key = match input_queue.keys.pop() {
            Some(kk) => kk,
            None => unreached(),
        };
        let is_other = match key {
            KeyCode::Other => true,
            _ => false,
        };
        if is_other {
            return ;
        }
        let ghost pxi = px as int;
        let ghost pyi = py as int;
        let mov_index = build_index(world, false);
        let imm_index = build_index(world, true);
        let ray: usize = match key {
            KeyCode::Up => py as usize + 1,
            KeyCode::Down => (MAP_HEIGHT - py) as usize + 1,
            KeyCode::Left => px as usize + 1,
            KeyCode::Right => (MAP_WIDTH - px) as usize + 1,
            KeyCode::Other => unreached(),
        };
        proof {
            assert(ray as int == ray_len(pxi, pyi, key));
        }
        let mut to_move: Vec<usize> = Vec::new();
        let mut j: usize = 0;
        let mut cx = px;
        let mut cy = py;
        let mut commit = false;
        let mut done = false;
        while !done && j < ray
            invariant
                j <= ray,
                to_move@.len() == j,
                !done ==> !commit,
                !done && j < ray ==> cx as int == cell_x(pxi, key, j as int) && cy as int
                    == cell_y(pyi, key, j as int) && in_map(cx as int, cy as int),
                forall|m: int|
                    0 <= m < j ==> mov_at(
                        *world,
                        #[trigger] to_move@[m] as int,
                        cell_x(pxi, key, m),
                        cell_y(pyi, key, m),
                    ),
                done && commit ==> commit_at(*world, pxi, pyi, key, j as int),
                done && !commit ==> !push_commits(*world, pxi, pyi, key),
            decreases ray - j, (if done { 0int } else { 1int }),
        {
            let s = grid_slot(cx, cy);
            match mov_index[s] {
                Some(e) => {
                    to_move.push(e);
                    j += 1;
                    proof {
                        assert(index_entry_ok(
                            *world,
                            false,
                            cx as int,
                            cy as int,
                            mov_index@[grid_idx(cx as int, cy as int)],
                        ));
                        assert(mov_at(*world, e as int, cell_x(pxi, key, j - 1), cell_y(pyi, key, j - 1)));
                    }
                    if j < ray {
                        proof {
                            lemma_ray_cell_in_map(pxi, pyi, key, j as int);
                        }
                        match key {
                            KeyCode::Up => {
                                cy = cy - 1;
                            },
                            KeyCode::Down => {
                                cy = cy + 1;
                            },
                            KeyCode::Left => {
                                cx = cx - 1;
                            },
                            KeyCode::Right => {
                                cx = cx + 1;
                            },
                            KeyCode::Other => {
                                proof {
                                    assert(false);
                                }
                            },
                        }
                    }
                },
                None => {
                    proof {
                        assert(index_entry_ok(
                            *world,
                            false,
                            cx as int,
                            cy as int,
                            mov_index@[grid_idx(cx as int, cy as int)],
                        ));
                        assert(!some_mov_at(*world, cell_x(pxi, key, j as int), cell_y(pyi, key, j as int)));
                        assert forall|m: int| 0 <= m < j implies some_mov_at(
                            *world,
                            cell_x(pxi, key, m),
                            cell_y(pyi, key, m),
                        ) by {
                            assert(mov_at(
                                *world,
                                to_move@[m] as int,
                                cell_x(pxi, key, m),
                                cell_y(pyi, key, m),
                            ));
                        }
                        if j == 0 {
                            assert(cell_x(pxi, key, 0) == pxi && cell_y(pyi, key, 0) == pyi);
                            assert(some_mov_at(*world, pxi, pyi));
                            assert(false);
                        }
                    }
                    if imm_index[s].is_none() {
                        commit = true;
                        proof {
                            assert(index_entry_ok(
                                *world,
                                true,
                                cx as int,
                                cy as int,
                                imm_index@[grid_idx(cx as int, cy as int)],
                            ));
                            assert(commit_at(*world, pxi, pyi, key, j as int));
                        }
                    } else {
                        proof {
                            assert(index_entry_ok(
                                *world,
                                true,
                                cx as int,
                                cy as int,
                                imm_index@[grid_idx(cx as int, cy as int)],
                            ));
                            assert(some_imm_at(*world, cell_x(pxi, key, j as int), cell_y(pyi, key, j as int)));
                            assert forall|n: int| !commit_at(*world, pxi, pyi, key, n) by {
                                if commit_at(*world, pxi, pyi, key, n) {
                                    if n < j {
                                        assert(some_mov_at(*world, cell_x(pxi, key, n), cell_y(pyi, key, n)));
                                    } else if n == j {
                                    } else {
                                        assert(chain_clear(*world, pxi, pyi, key, n));
                                        assert(some_mov_at(*world, cell_x(pxi, key, j as int), cell_y(pyi, key, j as int)));
                                    }
                                }
                            }
                        }
                    }
                    done = true;
                },
            }
        }
        proof {
            if !commit {
                assert forall|n: int| !commit_at(*world, pxi, pyi, key, n) by {
                    if commit_at(*world, pxi, pyi, key, n) {
                        if !done {
                            assert(mov_at(
                                *world,
                                to_move@[n] as int,
                                cell_x(pxi, key, n),
                                cell_y(pyi, key, n),
                            ));
                            assert(some_mov_at(*world, cell_x(pxi, key, n), cell_y(pyi, key, n)));
                        }
                    }
                }
                assert(!push_commits(*world, pxi, pyi, key));
            }
        }
        if commit {
            let n = to_move.len();
            let mut m: usize = 0;
            while m < n
                invariant
                    m <= n,
                    world.ents@.len() == old(world).ents@.len(),
                    forall|mm: int|
                        0 <= mm < m ==> shifted(
                            old(world).ents@[#[trigger] to_move@[mm] as int],
                            world.ents@[to_move@[mm] as int],
                            key,
                        ),
                    forall|e: int|
                        0 <= e < old(world).ents@.len() && !prefix_contains(to_move@, m as int, e)
                            ==> #[trigger] world.ents@[e] == old(world).ents@[e],
                decreases n - m,
            {
                let e = to_move[m];
                proof {
                    assert(mov_at(
                        *old(world),
                        e as int,
                        cell_x(pxi, key, m as int),
                        cell_y(pyi, key, m as int),
                    ));
                    assert forall|mm: int| 0 <= mm < m implies to_move@[mm] != to_move@[m as int] by {
                        if to_move@[mm] == to_move@[m as int] {
                            assert(mov_at(
                                *old(world),
                                e as int,
                                cell_x(pxi, key, mm),
                                cell_y(pyi, key, mm),
                            ));
                            lemma_cell_inj(pxi, pyi, key, mm, m as int);
                        }
                    }
                    assert(!prefix_contains(to_move@, m as int, e as int));
                    assert(world.ents@[e as int] == old(world).ents@[e as int]);
                    lemma_ray_cell_in_map(pxi, pyi, key, m as int + 1);
                }
                let p = match world.ents[e].position {
                    Some(p) => p,
                    None => unreached(),
                };
                proof {
                    assert(p.x as int == cell_x(pxi, key, m as int) && p.y as int == cell_y(
                        pyi,
                        key,
                        m as int,
                    ));
                    assert(cell_x(pxi, key, m as int + 1) == cell_x(pxi, key, m as int) + dx(key));
                    assert(cell_y(pyi, key, m as int + 1) == cell_y(pyi, key, m as int) + dy(key));
                }
                let ghost pre = world.ents@;
                match key {
                    KeyCode::Up => {
                        world.ents[e].position = Some(
                            Position { x: p.x, y: p.y - 1, z: p.z },
                        );
                    },
                    KeyCode::Down => {
                        world.ents[e].position = Some(
                            Position { x: p.x, y: p.y + 1, z: p.z },
                        );
                    },
                    KeyCode::Left => {
                        world.ents[e].position = Some(
                            Position { x: p.x - 1, y: p.y, z: p.z },
                        );
                    },
                    KeyCode::Right => {
                        world.ents[e].position = Some(
                            Position { x: p.x + 1, y: p.y, z: p.z },
                        );
                    },
                    KeyCode::Other => {
                        proof {
                            assert(false);
                        }
                    },
                }
                proof {
                    assert(world.ents@ =~= pre.update(
                        e as int,
                        world.ents@[e as int],
                    ));
                    assert(shifted(old(world).ents@[e as int], world.ents@[e as int], key));
                }
                m += 1;
            }
            gameplay.moves_count += 1;
            proof {
                assert(moved_world(*old(world), *world, pxi, pyi, key, n as int)) by {
                    assert forall|e: int|
                        0 <= e < old(world).ents@.len() && in_chain(
                            *old(world),
                            e,
                            pxi,
                            pyi,
                            key,
                            n as int,
                        ) implies shifted(old(world).ents@[e], world.ents@[e], key) by {
                        let jj = choose|jj: int|
                            0 <= jj < n && mov_at(
                                *old(world),
                                e,
                                #[trigger] cell_x(pxi, key, jj),
                                cell_y(pyi, key, jj),
                            );
                        assert(mov_at(
                            *old(world),
                            to_move@[jj] as int,
                            cell_x(pxi, key, jj),
                            cell_y(pyi, key, jj),
                        ));
                        assert(e == to_move@[jj] as int);
                        assert(shifted(
                            old(world).ents@[to_move@[jj] as int],
                            world.ents@[to_move@[jj] as int],
                            key,
                        ));
                    }
                    assert forall|e: int|
                        0 <= e < old(world).ents@.len() && !in_chain(
                            *old(world),
                            e,
                            pxi,
                            pyi,
                            key,
                            n as int,
                        ) implies world.ents@[e] == old(world).ents@[e] by {
                        if prefix_contains(to_move@, n as int, e) {
                            let mm = choose|mm: int| 0 <= mm < n && to_move@[mm] == e;
                            assert(mov_at(
                                *old(world),
                                e,
                                cell_x(pxi, key, mm),
                                cell_y(pyi, key, mm),
                            ));
                            assert(in_chain(*old(world), e, pxi, pyi, key, n as int));
                        }
                    }
                };
                assert(push_commits(*old(world), pxi, pyi, key));
                assert forall|n2: int| #[trigger] commit_at(
                    *old(world),
                    pxi,
                    pyi,
                    key,
                    n2,
                ) implies moved_world(*old(world), *world, pxi, pyi, key, n2) by {
                    lemma_commit_unique(*old(world), pxi, pyi, key, n2, n as int);
                }
                lemma_wf_after_move(*old(world), *world, pxi, pyi, key, n as int);
                lemma_player_preserved(*old(world), *world, pxi, pyi, key, n as int);
            }
        }
    }
}

} // verus!
