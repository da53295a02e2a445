use vstd::prelude::*;

use crate::components::{Component, ComponentKind, Position};
use crate::constants::{MAP_HEIGHT, MAP_WIDTH};

verus! {

/// One entity record in the typed store: which components the entity
/// carries. Tags are presence flags; `position` and `renderable` carry data.
pub struct Ent {
    pub position: Option<Position>,
    pub renderable: Option<crate::components::Renderable>,
    pub player: bool,
    pub wall: bool,
    pub box_: bool,
    pub box_spot: bool,
    pub movable: bool,
    pub immovable: bool,
}

/// The entity/component store: typed component storage keyed by entity id
/// (the index into `ents`). Entities are created once during level
/// construction and never destroyed; only positions mutate afterwards.
pub struct World {
    pub ents: Vec<Ent>,
}

/// The record of a freshly created entity, before any component is attached.
pub open spec fn blank_ent() -> Ent {
    Ent {
        position: None,
        renderable: None,
        player: false,
        wall: false,
        box_: false,
        box_spot: false,
        movable: false,
        immovable: false,
    }
}

/// The record `e` with component `c` attached.
pub open spec fn with_component(e: Ent, c: Component) -> Ent {
    match c {
        Component::Position(p) => Ent { position: Some(p), ..e },
        Component::Renderable(r) => Ent { renderable: Some(r), ..e },
        Component::Player(_) => Ent { player: true, ..e },
        Component::Wall(_) => Ent { wall: true, ..e },
        Component::Box(_) => Ent { box_: true, ..e },
        Component::BoxSpot(_) => Ent { box_spot: true, ..e },
        Component::Movable(_) => Ent { movable: true, ..e },
        Component::Immovable(_) => Ent { immovable: true, ..e },
    }
}

/// Whether record `e` carries the component kind `k`.
pub open spec fn has_kind(e: Ent, k: ComponentKind) -> bool {
    match k {
        ComponentKind::Position => e.position is Some,
        ComponentKind::Renderable => e.renderable is Some,
        ComponentKind::Player => e.player,
        ComponentKind::Wall => e.wall,
        ComponentKind::Box => e.box_,
        ComponentKind::BoxSpot => e.box_spot,
        ComponentKind::Movable => e.movable,
        ComponentKind::Immovable => e.immovable,
    }
}

/// Whether record `e` carries every kind in `ks`.
pub open spec fn has_all_kinds(e: Ent, ks: Seq<ComponentKind>) -> bool {
    forall|i: int| 0 <= i < ks.len() ==> has_kind(e, #[trigger] ks[i])
}

/// Entity `e` exists and sits at cell (x, y).
pub open spec fn ent_at(w: World, e: int, x: int, y: int) -> bool {
    &&& 0 <= e < w.ents@.len()
    &&& w.ents@[e].position matches Some(p) && p.x == x && p.y == y
}

/// Entity `e` is a movable entity at cell (x, y).
pub open spec fn mov_at(w: World, e: int, x: int, y: int) -> bool {
    ent_at(w, e, x, y) && w.ents@[e].movable
}

/// Entity `e` is an immovable entity at cell (x, y).
pub open spec fn imm_at(w: World, e: int, x: int, y: int) -> bool {
    ent_at(w, e, x, y) && w.ents@[e].immovable
}

/// Entity `e` is a box at cell (x, y).
pub open spec fn box_at(w: World, e: int, x: int, y: int) -> bool {
    ent_at(w, e, x, y) && w.ents@[e].box_
}

/// Entity `e` is a box spot at cell (x, y).
pub open spec fn spot_at(w: World, e: int, x: int, y: int) -> bool {
    ent_at(w, e, x, y) && w.ents@[e].box_spot
}

/// Some movable entity occupies cell (x, y).
pub open spec fn some_mov_at(w: World, x: int, y: int) -> bool {
    exists|e: int| mov_at(w, e, x, y)
}

/// Some immovable entity occupies cell (x, y).
pub open spec fn some_imm_at(w: World, x: int, y: int) -> bool {
    exists|e: int| imm_at(w, e, x, y)
}

/// Some box occupies cell (x, y).
pub open spec fn some_box_at(w: World, x: int, y: int) -> bool {
    exists|e: int| box_at(w, e, x, y)
}

/// Cell (x, y) lies on the map.
pub open spec fn in_map(x: int, y: int) -> bool {
    0 <= x <= MAP_WIDTH as int && 0 <= y <= MAP_HEIGHT as int
}

/// Record-level bound: a movable or immovable entity with a position is on
/// the map.
pub open spec fn actor_in_map(e: Ent) -> bool {
    (e.movable || e.immovable) ==> (e.position matches Some(p) ==> in_map(
        p.x as int,
        p.y as int,
    ))
}

/// No movable or immovable entity occupies a cell outside the map.
pub open spec fn actors_in_map(w: World) -> bool {
    forall|i: int| 0 <= i < w.ents@.len() ==> actor_in_map(#[trigger] w.ents@[i])
}

/// At most one movable entity occupies any given cell.
pub open spec fn movs_distinct(w: World) -> bool {
    forall|e1: int, e2: int, x: int, y: int|
        #[trigger] mov_at(w, e1, x, y) && #[trigger] mov_at(w, e2, x, y) ==> e1 == e2
}

/// At most one immovable entity occupies any given cell.
pub open spec fn imms_distinct(w: World) -> bool {
    forall|e1: int, e2: int, x: int, y: int|
        #[trigger] imm_at(w, e1, x, y) && #[trigger] imm_at(w, e2, x, y) ==> e1 == e2
}

/// Record-level tag rules: players and boxes are movable, walls are
/// immovable, box spots carry neither flag, and no entity carries both.
pub open spec fn tags_ok(e: Ent) -> bool {
    &&& e.player ==> e.movable
    &&& e.box_ ==> e.movable
    &&& e.wall ==> e.immovable
    &&& e.box_spot ==> !e.movable && !e.immovable
    &&& !(e.movable && e.immovable)
}

/// Every record obeys the tag rules.
pub open spec fn tags_wf(w: World) -> bool {
    forall|i: int| 0 <= i < w.ents@.len() ==> tags_ok(#[trigger] w.ents@[i])
}

/// Well-formedness of a level: the grid occupancy invariant, the coordinate
/// bounds and the tag rules. Established by the loader and preserved by the
/// movement resolver.
pub open spec fn wf(w: World) -> bool {
    &&& actors_in_map(w)
    &&& movs_distinct(w)
    &&& imms_distinct(w)
    &&& tags_wf(w)
}

/// Entities `e1` and `e2` are both movable (for `imm`: both immovable) and
/// share a cell — a violation of the grid occupancy invariant.
pub open spec fn clash(w: World, imm: bool, e1: int, e2: int) -> bool {
    &&& 0 <= e1 < w.ents@.len()
    &&& 0 <= e2 < w.ents@.len()
    &&& if imm {
        w.ents@[e1].immovable && w.ents@[e2].immovable
    } else {
        w.ents@[e1].movable && w.ents@[e2].movable
    }
    &&& w.ents@[e1].position is Some
    &&& w.ents@[e2].position is Some
    &&& w.ents@[e1].position->0.x == w.ents@[e2].position->0.x
    &&& w.ents@[e1].position->0.y == w.ents@[e2].position->0.y
}

/// Entity `e` is a player entity with a position.
pub open spec fn is_player_ent(w: World, e: int) -> bool {
    &&& 0 <= e < w.ents@.len()
    &&& w.ents@[e].player
    &&& w.ents@[e].position is Some
}

/// Exactly one player entity with a position exists.
pub open spec fn unique_player(w: World) -> bool {
    &&& exists|e: int| is_player_ent(w, e)
    &&& forall|e1: int, e2: int|
        #[trigger] is_player_ent(w, e1) && #[trigger] is_player_ent(w, e2) ==> e1 == e2
}

/// The id of the unique player entity.
pub open spec fn the_player(w: World) -> int {
    choose|e: int| is_player_ent(w, e)
}

/// The player's x coordinate.
pub open spec fn player_x(w: World) -> int {
    w.ents@[the_player(w)].position->0.x as int
}

/// The player's y coordinate.
pub open spec fn player_y(w: World) -> int {
    w.ents@[the_player(w)].position->0.y as int
}

impl World {
    /// An empty store.
    pub fn new() -> (w: World)
        ensures
            w.ents@.len() == 0,
    {
        World { ents: Vec::new() }
    }

    /// Creates a fresh entity with no components and returns its id.
    pub fn create_entity(&mut self) -> (id: usize)
        ensures
            id == old(self).ents@.len(),
            final(self).ents@ == old(self).ents@.push(blank_ent()),
    {
        let id = self.ents.len();
        self.ents.push(
            Ent {
                position: None,
                renderable: None,
                player: false,
                wall: false,
                box_: false,
                box_spot: false,
                movable: false,
                immovable: false,
            },
        );
        id
    }

    /// Attaches component `c` to entity `id`.
    pub fn attach(&mut self, id: usize, c: Component)
        requires
            id < old(self).ents@.len(),
        ensures
            final(self).ents@ == old(self).ents@.update(
                id as int,
                with_component(old(self).ents@[id as int], c),
            ),
    {
        match c {
            Component::Position(p) => {
                self.ents[id].position = Some(p);
            },
            Component::Renderable(r) => {
                self.ents[id].renderable = Some(r);
            },
            Component::Player(_) => {
                self.ents[id].player = true;
            },
            Component::Wall(_) => {
                self.ents[id].wall = true;
            },
            Component::Box(_) => {
                self.ents[id].box_ = true;
            },
            Component::BoxSpot(_) => {
                self.ents[id].box_spot = true;
            },
            Component::Movable(_) => {
                self.ents[id].movable = true;
            },
            Component::Immovable(_) => {
                self.ents[id].immovable = true;
            },
        }
    }

    /// Membership-filtered iteration: the ids of all entities that carry
    /// every kind in `kinds`, in ascending id order.
    pub fn entities_with(&self, kinds: &Vec<ComponentKind>) -> (ids: Vec<usize>)
        ensures
            forall|m1: int, m2: int| 0 <= m1 < m2 < ids@.len() ==> ids@[m1] < ids@[m2],
            forall|m: int|
                0 <= m < ids@.len() ==> ids@[m] < self.ents@.len() && has_all_kinds(
                    self.ents@[#[trigger] ids@[m] as int],
                    kinds@,
                ),
            forall|e: int|
                0 <= e < self.ents@.len() && has_all_kinds(#[trigger] self.ents@[e], kinds@)
                    ==> ids@.contains(e as usize),
    {
        let mut ids: Vec<usize> = Vec::new();
        let mut i: usize = 0;
        while i < self.ents.len()
            invariant
                i <= self.ents@.len(),
                forall|m1: int, m2: int| 0 <= m1 < m2 < ids@.len() ==> ids@[m1] < ids@[m2],
                forall|m: int|
                    0 <= m < ids@.len() ==> ids@[m] < i && has_all_kinds(
                        self.ents@[#[trigger] ids@[m] as int],
                        kinds@,
                    ),
                forall|e: int|
                    0 <= e < i && has_all_kinds(#[trigger] self.ents@[e], kinds@)
                        ==> ids@.contains(e as usize),
            decreases self.ents@.len() - i,
        {
            if self.carries_all(i, kinds) {
                let ghost old_ids = ids@;
                ids.push(i);
                proof {
                    assert forall|e: int|
                        0 <= e < i + 1 && has_all_kinds(#[trigger] self.ents@[e], kinds@)
                            implies ids@.contains(e as usize) by {
                        if e < i {
                            let m = choose|m: int|
                                0 <= m < old_ids.len() && old_ids[m] == e as usize;
                            assert(ids@[m] == e as usize);
                        } else {
                            assert(ids@[ids@.len() - 1] == i as usize);
                        }
                    }
                }
            }
            i += 1;
        }
        ids
    }

    /// Whether the store satisfies the resolver's preconditions: the level
    /// invariants and a unique player. Callers outside the verified core
    /// test this before driving a tick.
    pub fn is_valid_level(&self) -> (b: bool)
        ensures
            b == (wf(*self) && unique_player(*self)),
    {
        let tags = self.check_tags();
        if !tags {
            return false;
        }
        let actors = self.check_actors();
        if !actors {
            return false;
        }
        let movs = self.check_distinct(false);
        if !movs {
            return false;
        }
        let imms = self.check_distinct(true);
        if !imms {
            return false;
        }
        self.check_player()
    }

    /// Whether every record obeys the tag rules.
    fn check_tags(&self) -> (b: bool)
        ensures
            b == tags_wf(*self),
    {
        let mut i: usize = 0;
        while i < self.ents.len()
            invariant
                i <= self.ents@.len(),
                forall|e: int| 0 <= e < i ==> tags_ok(#[trigger] self.ents@[e]),
            decreases self.ents@.len() - i,
        {
            let ent = &self.ents[i];
            let ok = (!ent.player || ent.movable) && (!ent.box_ || ent.movable) && (!ent.wall
                || ent.immovable) && (!ent.box_spot || (!ent.movable && !ent.immovable)) && !(
            ent.movable && ent.immovable);
            if !ok {
                proof {
                    assert(!tags_ok(self.ents@[i as int]));
                }
                return false;
            }
            i = i + 1;
        }
        true
    }

    /// Whether every movable or immovable entity sits on the map.
    fn check_actors(&self) -> (b: bool)
        ensures
            b == actors_in_map(*self),
    {
        let mut i: usize = 0;
        while i < self.ents.len()
            invariant
                i <= self.ents@.len(),
                forall|e: int| 0 <= e < i ==> actor_in_map(#[trigger] self.ents@[e]),
            decreases self.ents@.len() - i,
        {
            let ent = &self.ents[i];
            if ent.movable || ent.immovable {
                match ent.position {
                    Some(p) => {
                        if p.x > MAP_WIDTH || p.y > MAP_HEIGHT {
                            proof {
                                assert(!actor_in_map(self.ents@[i as int]));
                            }
                            return false;
                        }
                    },
                    None => {},
                }
            }
            i = i + 1;
        }
        true
    }

    /// Whether no two movable (for `imm`: immovable) entities share a cell.
    fn check_distinct(&self, imm: bool) -> (b: bool)
        ensures
            !imm ==> b == movs_distinct(*self),
            imm ==> b == imms_distinct(*self),
    {
        let mut i: usize = 0;
        while i < self.ents.len()
            invariant
                i <= self.ents@.len(),
                forall|e1: int, e2: int|
                    0 <= e1 < i && e1 < e2 < self.ents@.len() ==> !(#[trigger] clash(
                        *self,
                        imm,
                        e1,
                        e2,
                    )),
            decreases self.ents@.len() - i,
        {
            let tagged = if imm {
                self.ents[i].immovable
            } else {
                self.ents[i].movable
            };
            let pos = if tagged {
                self.ents[i].position
            } else {
                None
            };
            match pos {
                Some(p) => {
                    let mut j: usize = i + 1;
                    while j < self.ents.len()
                        invariant
                            i < j,
                            j <= self.ents@.len(),
                            i < self.ents@.len(),
                            self.ents@[i as int].position == Some(p),
                            imm ==> self.ents@[i as int].immovable,
                            !imm ==> self.ents@[i as int].movable,
                            forall|e2: int| i < e2 < j ==> !(#[trigger] clash(*self, imm, i as int, e2)),
                        decreases self.ents@.len() - j,
                    {
                        let tagged2 = if imm {
                            self.ents[j].immovable
                        } else {
                            self.ents[j].movable
                        };
                        if tagged2 {
                            match self.ents[j].position {
                                Some(q) => {
                                    if p.x == q.x && p.y == q.y {
                                        proof {
                                            assert(clash(*self, imm, i as int, j as int));
                                            if imm {
                                                assert(imm_at(*self, i as int, p.x as int, p.y as int));
                                                assert(imm_at(*self, j as int, p.x as int, p.y as int));
                                            } else {
                                                assert(mov_at(*self, i as int, p.x as int, p.y as int));
                                                assert(mov_at(*self, j as int, p.x as int, p.y as int));
                                            }
                                        }
                                        return false;
                                    }
                                },
                                None => {},
                            }
                        }
                        j = j + 1;
                    }
                },
                None => {},
            }
            proof {
                assert forall|e2: int| i < e2 < self.ents@.len() implies !clash(
                    *self,
                    imm,
                    i as int,
                    e2,
                ) by {}
            }
            i = i + 1;
        }
        proof {
            if !imm {
                assert forall|e1: int, e2: int, x: int, y: int|
                    #[trigger] mov_at(*self, e1, x, y) && #[trigger] mov_at(*self, e2, x, y)
                        implies e1 == e2 by {
                    if e1 < e2 {
                        assert(clash(*self, false, e1, e2));
                    }
                    if e2 < e1 {
                        assert(clash(*self, false, e2, e1));
                    }
                }
            } else {
                assert forall|e1: int, e2: int, x: int, y: int|
                    #[trigger] imm_at(*self, e1, x, y) && #[trigger] imm_at(*self, e2, x, y)
                        implies e1 == e2 by {
                    if e1 < e2 {
                        assert(clash(*self, true, e1, e2));
                    }
                    if e2 < e1 {
                        assert(clash(*self, true, e2, e1));
                    }
                }
            }
        }
        true
    }

    /// Whether exactly one player entity with a position exists.
    fn check_player(&self) -> (b: bool)
        ensures
            b == unique_player(*self),
    {
        let mut found = false;
        let mut fi: usize = 0;
        let mut i: usize = 0;
        while i < self.ents.len()
            invariant
                i <= self.ents@.len(),
                found ==> fi < i && is_player_ent(*self, fi as int) && (forall|e: int|
                    0 <= e < i && #[trigger] is_player_ent(*self, e) ==> e == fi as int),
                !found ==> forall|e: int| 0 <= e < i ==> !is_player_ent(*self, e),
            decreases self.ents@.len() - i,
        {
            if self.ents[i].player && self.ents[i].position.is_some() {
                if found {
                    proof {
                        assert(is_player_ent(*self, fi as int) && is_player_ent(*self, i as int));
                    }
                    return false;
                }
                found = true;
                fi = i;
            }
            i = i + 1;
        }
        if !found {
            proof {
                if unique_player(*self) {
                    let e = choose|e: int| is_player_ent(*self, e);
                    assert(false);
                }
            }
            return false;
        }
        true
    }

    /// Whether entity `i` carries every kind in `kinds`.
    fn carries_all(&self, i: usize, kinds: &Vec<ComponentKind>) -> (b: bool)
        requires
            i < self.ents@.len(),
        ensures
            b == has_all_kinds(self.ents@[i as int], kinds@),
    {
        let mut j: usize = 0;
        while j < kinds.len()
            invariant
                i < self.ents@.len(),
                j <= kinds@.len(),
                forall|m: int| 0 <= m < j ==> has_kind(self.ents@[i as int], #[trigger] kinds@[m]),
            decreases kinds@.len() - j,
        {
            let ent = &self.ents[i];
            let carried = match kinds[j] {
                ComponentKind::Position => ent.position.is_some(),
                ComponentKind::Renderable => ent.renderable.is_some(),
                ComponentKind::Player => ent.player,
                ComponentKind::Wall => ent.wall,
                ComponentKind::Box => ent.box_,
                ComponentKind::BoxSpot => ent.box_spot,
                ComponentKind::Movable => ent.movable,
                ComponentKind::Immovable => ent.immovable,
            };
            if !carried {
                return false;
            }
            j += 1;
        }
        true
    }
}

} // verus!
