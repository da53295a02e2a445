use vstd::prelude::*;

use crate::components::{Box, BoxSpot, Component, Immovable, Movable, Player, Position, Renderable, Wall};
use crate::constants::{MAP_HEIGHT, MAP_WIDTH};
use crate::world::{
    actor_in_map, imm_at, is_player_ent, mov_at, tags_ok, unique_player, wf, Ent, World,
};

verus! {

/// Record shape of a floor tile at (x, y): draw layer 5, no tags.
pub open spec fn ent_is_floor(e: Ent, x: int, y: int) -> bool {
    &&& e.position matches Some(p) && p.x as int == x && p.y as int == y && p.z == 5
    &&& e.renderable matches Some(r) && r.path@ == "/images/floor.png"@
    &&& !e.player && !e.wall && !e.box_ && !e.box_spot && !e.movable && !e.immovable
}

/// Record shape of a wall at (x, y): draw layer 10, tagged Wall + Immovable.
pub open spec fn ent_is_wall(e: Ent, x: int, y: int) -> bool {
    &&& e.position matches Some(p) && p.x as int == x && p.y as int == y && p.z == 10
    &&& e.renderable matches Some(r) && r.path@ == "/images/wall.png"@
    &&& !e.player && e.wall && !e.box_ && !e.box_spot && !e.movable && e.immovable
}

/// Record shape of a box at (x, y): draw layer 10, tagged Box + Movable.
pub open spec fn ent_is_box(e: Ent, x: int, y: int) -> bool {
    &&& e.position matches Some(p) && p.x as int == x && p.y as int == y && p.z == 10
    &&& e.renderable matches Some(r) && r.path@ == "/images/box.png"@
    &&& !e.player && !e.wall && e.box_ && !e.box_spot && e.movable && !e.immovable
}

/// Record shape of a box spot at (x, y): draw layer 9, tagged BoxSpot only.
pub open spec fn ent_is_box_spot(e: Ent, x: int, y: int) -> bool {
    &&& e.position matches Some(p) && p.x as int == x && p.y as int == y && p.z == 9
    &&& e.renderable matches Some(r) && r.path@ == "/images/box_spot.png"@
    &&& !e.player && !e.wall && !e.box_ && e.box_spot && !e.movable && !e.immovable
}

/// Record shape of the player at (x, y): draw layer 10, tagged Player + Movable.
pub open spec fn ent_is_player(e: Ent, x: int, y: int) -> bool {
    &&& e.position matches Some(p) && p.x as int == x && p.y as int == y && p.z == 10
    &&& e.renderable matches Some(r) && r.path@ == "/images/player.png"@
    &&& e.player && !e.wall && !e.box_ && !e.box_spot && e.movable && !e.immovable
}

/// Characters that separate tokens within a row.
pub open spec fn is_blank_char(c: char) -> bool {
    c == ' ' || c == '\t' || c == '\r'
}

/// The six recognized level tokens: floor, wall, player, box, box spot,
/// nothing.
pub open spec fn is_token_char(c: char) -> bool {
    c == '.' || c == 'W' || c == 'P' || c == 'B' || c == 'S' || c == 'N'
}

/// One left-to-right pass over the level text. `x` counts the tokens seen
/// so far on the current row, `y` the rows that held at least one token,
/// `seen` whether the current row holds one yet (rows without tokens do not
/// advance `y`). A token must be a single recognized character followed by
/// whitespace, a row break or the end; anything else is a fatal load error,
/// rendered as `None`.
pub open spec fn scan_tokens(s: Seq<char>, x: int, y: int, seen: bool) -> Option<
    Seq<(char, int, int)>,
>
    decreases s.len(),
{
    if s.len() == 0 {
        Some(Seq::empty())
    } else if s[0] == '\n' {
        scan_tokens(
            s.skip(1),
            0,
            if seen {
                y + 1
            } else {
                y
            },
            false,
        )
    } else if is_blank_char(s[0]) {
        scan_tokens(s.skip(1), x, y, seen)
    } else if is_token_char(s[0]) && (s.len() == 1 || s[1] == '\n' || is_blank_char(s[1])) {
        match scan_tokens(s.skip(1), x + 1, y, true) {
            Some(rest) => Some(seq![(s[0], x, y)] + rest),
            None => None,
        }
    } else {
        None
    }
}

/// The token grid of a level text: each token character with its cell.
pub open spec fn tokens_of(s: Seq<char>) -> Option<Seq<(char, int, int)>> {
    scan_tokens(s, 0, 0, false)
}

/// The tokens already gathered, followed by whatever the rest of the scan
/// yields; an error anywhere poisons the whole parse.
pub open spec fn scan_link(
    s: Seq<char>,
    x: int,
    y: int,
    seen: bool,
    acc: Seq<(char, int, int)>,
) -> Option<Seq<(char, int, int)>> {
    match scan_tokens(s, x, y, seen) {
        Some(rest) => Some(acc + rest),
        None => None,
    }
}

/// View of an exec token list with mathematical coordinates.
pub open spec fn toks_view(ts: Seq<(char, usize, usize)>) -> Seq<(char, int, int)> {
    Seq::new(ts.len(), |i: int| (ts[i].0, ts[i].1 as int, ts[i].2 as int))
}

/// Tokenizes a level text, or reports the unrecognized token as `None`.
fn parse_tokens(s: &str) -> (r: Option<Vec<(char, usize, usize)>>)
    ensures
        r matches Some(ts) ==> tokens_of(s@) == Some(toks_view(ts@)),
        r is None ==> tokens_of(s@) is None,
{
    let n = s.unicode_len();
    let mut toks: Vec<(char, usize, usize)> = Vec::new();
    let mut i: usize = 0;
    let mut x: usize = 0;
    let mut y: usize = 0;
    let mut seen = false;
    proof {
        assert(s@.skip(0) =~= s@);
        assert(toks_view(toks@) + scan_tokens(s@, 0, 0, false)->0 =~= scan_tokens(
            s@,
            0,
            0,
            false,
        )->0);
    }
    while i < n
        invariant
            n == s@.len(),
            i <= n,
            x <= i,
            y <= i,
            tokens_of(s@) == scan_link(
                s@.skip(i as int),
                x as int,
                y as int,
                seen,
                toks_view(toks@),
            ),
        decreases n - i,
    {
        let c = s.get_char(i);
        proof {
            assert(s@.skip(i as int)[0] == s@[i as int]);
            assert(s@.skip(i as int).skip(1) =~= s@.skip(i + 1));
            if i + 1 < n {
                assert(s@.skip(i as int)[1] == s@[i + 1]);
            }
        }
        if c == '\n' {
            if seen {
                y = y + 1;
            }
            x = 0;
            seen = false;
            i = i + 1;
        } else if c == ' ' || c == '\t' || c == '\r' {
            i = i + 1;
        } else if c == '.' || c == 'W' || c == 'P' || c == 'B' || c == 'S' || c == 'N' {
            let mut sep = true;
            if i + 1 < n {
                let c2 = s.get_char(i + 1);
                sep = c2 == '\n' || c2 == ' ' || c2 == '\t' || c2 == '\r';
            }
            if !sep {
                proof {
                    assert(scan_tokens(s@.skip(i as int), x as int, y as int, seen) is None);
                }
                return None;
            }
            let ghost acc_pre = toks_view(toks@);
            toks.push((c, x, y));
            proof {
                assert(toks_view(toks@) =~= acc_pre + seq![(c, x as int, y as int)]);
                let inner = scan_tokens(s@.skip(i + 1), x as int + 1, y as int, true);
                assert(scan_tokens(s@.skip(i as int), x as int, y as int, seen) == (match inner {
                    Some(rest) => Some(seq![(c, x as int, y as int)] + rest),
                    None => None,
                }));
                if inner is Some {
                    assert((acc_pre + (seq![(c, x as int, y as int)] + inner->0)) =~= (acc_pre
                        + seq![(c, x as int, y as int)]) + inner->0);
                }
            }
            x = x + 1;
            seen = true;
            i = i + 1;
        } else {
            proof {
                assert(scan_tokens(s@.skip(i as int), x as int, y as int, seen) is None);
            }
            return None;
        }
    }
    proof {
        assert(s@.skip(n as int).len() == 0);
        assert(scan_tokens(s@.skip(n as int), x as int, y as int, seen) == Some(
            Seq::<(char, int, int)>::empty(),
        ));
        assert(toks_view(toks@) + Seq::<(char, int, int)>::empty() =~= toks_view(toks@));
    }
    Some(toks)
}

/// Creates a wall entity at `position`'s cell (its z is forced to 10).
pub fn create_wall(world: &mut World, position: Position)
    ensures
        final(world).ents@.len() == old(world).ents@.len() + 1,
        final(world).ents@.take(old(world).ents@.len() as int) == old(world).ents@,
        ent_is_wall(final(world).ents@.last(), position.x as int, position.y as int),
{
    let id = world.create_entity();
    world.attach(id, Component::Position(Position { x: position.x, y: position.y, z: 10 }));
    world.attach(
        id,
        Component::Renderable(Renderable { path: "/images/wall.png".to_owned() }),
    );
    world.attach(id, Component::Wall(Wall {}));
    world.attach(id, Component::Immovable(Immovable));
    proof {
        assert(final(world).ents@.take(old(world).ents@.len() as int) =~= old(world).ents@);
    }
}

/// Creates a floor tile at `position`'s cell (its z is forced to 5).
pub fn create_floor(world: &mut World, position: Position)
    ensures
        final(world).ents@.len() == old(world).ents@.len() + 1,
        final(world).ents@.take(old(world).ents@.len() as int) == old(world).ents@,
        ent_is_floor(final(world).ents@.last(), position.x as int, position.y as int),
{
    let id = world.create_entity();
    world.attach(id, Component::Position(Position { x: position.x, y: position.y, z: 5 }));
    world.attach(
        id,
        Component::Renderable(Renderable { path: "/images/floor.png".to_owned() }),
    );
    proof {
        assert(final(world).ents@.take(old(world).ents@.len() as int) =~= old(world).ents@);
    }
}

/// Creates a box entity at `position`'s cell (its z is forced to 10).
pub fn create_box(world: &mut World, position: Position)
    ensures
        final(world).ents@.len() == old(world).ents@.len() + 1,
        final(world).ents@.take(old(world).ents@.len() as int) == old(world).ents@,
        ent_is_box(final(world).ents@.last(), position.x as int, position.y as int),
{
    let id = world.create_entity();
    world.attach(id, Component::Position(Position { x: position.x, y: position.y, z: 10 }));
    world.attach(
        id,
        Component::Renderable(Renderable { path: "/images/box.png".to_owned() }),
    );
    world.attach(id, Component::Box(Box {}));
    world.attach(id, Component::Movable(Movable));
    proof {
        assert(final(world).ents@.take(old(world).ents@.len() as int) =~= old(world).ents@);
    }
}

/// Creates a box-spot entity at `position`'s cell (its z is forced to 9).
pub fn create_box_spot(world: &mut World, position: Position)
    ensures
        final(world).ents@.len() == old(world).ents@.len() + 1,
        final(world).ents@.take(old(world).ents@.len() as int) == old(world).ents@,
        ent_is_box_spot(final(world).ents@.last(), position.x as int, position.y as int),
{
    let id = world.create_entity();
    world.attach(id, Component::Position(Position { x: position.x, y: position.y, z: 9 }));
    world.attach(
        id,
        Component::Renderable(Renderable { path: "/images/box_spot.png".to_owned() }),
    );
    world.attach(id, Component::BoxSpot(BoxSpot {}));
    proof {
        assert(final(world).ents@.take(old(world).ents@.len() as int) =~= old(world).ents@);
    }
}

/// Creates the player entity at `position`'s cell (its z is forced to 10).
pub fn create_player(world: &mut World, position: Position)
    ensures
        final(world).ents@.len() == old(world).ents@.len() + 1,
        final(world).ents@.take(old(world).ents@.len() as int) == old(world).ents@,
        ent_is_player(final(world).ents@.last(), position.x as int, position.y as int),
{
    let id = world.create_entity();
    world.attach(id, Component::Position(Position { x: position.x, y: position.y, z: 10 }));
    world.attach(
        id,
        Component::Renderable(Renderable { path: "/images/player.png".to_owned() }),
    );
    world.attach(id, Component::Player(Player {}));
    world.attach(id, Component::Movable(Movable));
    proof {
        assert(final(world).ents@.take(old(world).ents@.len() as int) =~= old(world).ents@);
    }
}

/// Why a level text was rejected.
#[derive(Clone, Copy, PartialEq, Eq, Structural, Debug)]
pub enum LoadError {
    /// A token is not one of the six recognized characters, or not a single
    /// character.
    UnrecognizedToken,
    /// A token's cell lies outside the fixed map.
    OutOfBounds,
    /// The level does not hold exactly one player.
    PlayerCount,
}

/// How many entities one token creates: floor tokens one, the four tokens
/// that stand on floor two (the floor tile and the thing on it), `N` none.
pub open spec fn token_ent_count(c: char) -> int {
    if c == '.' {
        1
    } else if c == 'W' || c == 'P' || c == 'B' || c == 'S' {
        2
    } else {
        0
    }
}

/// How many entities the first `i` tokens create.
pub open spec fn ents_before(ts: Seq<(char, int, int)>, i: int) -> int
    decreases i,
{
    if i <= 0 {
        0
    } else {
        ents_before(ts, i - 1) + token_ent_count(ts[i - 1].0)
    }
}

/// The records a token contributes, starting at index `base` of the store.
pub open spec fn token_ents_ok(es: Seq<Ent>, base: int, c: char, x: int, y: int) -> bool {
    if c == '.' {
        0 <= base && base + 1 <= es.len() && ent_is_floor(es[base], x, y)
    } else if c == 'W' {
        0 <= base && base + 2 <= es.len() && ent_is_floor(es[base], x, y) && ent_is_wall(
            es[base + 1],
            x,
            y,
        )
    } else if c == 'P' {
        0 <= base && base + 2 <= es.len() && ent_is_floor(es[base], x, y) && ent_is_player(
            es[base + 1],
            x,
            y,
        )
    } else if c == 'B' {
        0 <= base && base + 2 <= es.len() && ent_is_floor(es[base], x, y) && ent_is_box(
            es[base + 1],
            x,
            y,
        )
    } else if c == 'S' {
        0 <= base && base + 2 <= es.len() && ent_is_floor(es[base], x, y) && ent_is_box_spot(
            es[base + 1],
            x,
            y,
        )
    } else {
        true
    }
}

/// The store holds exactly the entities of the token grid, token by token,
/// in token order.
pub open spec fn level_built(ts: Seq<(char, int, int)>, es: Seq<Ent>) -> bool {
    &&& es.len() == ents_before(ts, ts.len() as int)
    &&& forall|i: int|
        0 <= i < ts.len() ==> token_ents_ok(
            es,
            ents_before(ts, i),
            (#[trigger] ts[i]).0,
            ts[i].1,
            ts[i].2,
        )
}

/// Every token cell lies on the fixed map.
pub open spec fn toks_in_bounds(ts: Seq<(char, int, int)>) -> bool {
    forall|i: int|
        0 <= i < ts.len() ==> 0 <= (#[trigger] ts[i]).1 <= MAP_WIDTH as int && 0 <= ts[i].2
            <= MAP_HEIGHT as int
}

/// How many player tokens the grid holds.
pub open spec fn player_count(ts: Seq<(char, int, int)>) -> int
    decreases ts.len(),
{
    if ts.len() == 0 {
        0
    } else {
        player_count(ts.drop_last()) + if ts.last().0 == 'P' {
            1int
        } else {
            0int
        }
    }
}

/// Builds the level described by `map_string` into an empty store: rows are
/// newline-separated, tokens whitespace-separated; `.` floor, `W` wall, `P`
/// player, `B` box, `S` box spot, `N` nothing. Rows without tokens do not
/// count. A malformed token, a cell off the fixed map, or a player count
/// other than one is fatal, and no partial level is produced.
pub fn load_map(world: &mut World, map_string: String) -> (r: Result<(), LoadError>)
    requires
        old(world).ents@.len() == 0,
    ensures
        r == Result::<(), LoadError>::Err(LoadError::UnrecognizedToken) <==> tokens_of(
            map_string@,
        ) is None,
        r == Result::<(), LoadError>::Err(LoadError::OutOfBounds) <==> (tokens_of(map_string@)
            matches Some(ts) && !toks_in_bounds(ts)),
        r == Result::<(), LoadError>::Err(LoadError::PlayerCount) <==> (tokens_of(map_string@)
            matches Some(ts) && toks_in_bounds(ts) && player_count(ts) != 1),
        r is Err ==> final(world).ents@.len() == 0,
        r is Ok <==> (tokens_of(map_string@) matches Some(ts) && toks_in_bounds(ts)
            && player_count(ts) == 1),
        r is Ok ==> (tokens_of(map_string@) matches Some(ts) && level_built(
            ts,
            final(world).ents@,
        )),
        r is Ok ==> wf(*final(world)) && unique_player(*final(world)),
{
    let toks = match parse_tokens(map_string.as_str()) {
        Some(t) => t,
        None => {
            return Err(LoadError::UnrecognizedToken);
        },
    };
    let ghost tv = toks_view(toks@);
    // every token cell must lie on the map
    let mut i: usize = 0;
    while i < toks.len()
        invariant
            tv == toks_view(toks@),
            tokens_of(map_string@) == Some(tv),
            old(world).ents@.len() == 0,
            *world == *old(world),
            i <= toks@.len(),
            forall|m: int|
                0 <= m < i ==> 0 <= (#[trigger] tv[m]).1 <= MAP_WIDTH as int && 0 <= tv[m].2
                    <= MAP_HEIGHT as int,
        decreases toks@.len() - i,
    {
        let t = toks[i];
        if t.1 > MAP_WIDTH as usize || t.2 > MAP_HEIGHT as usize {
            proof {
                assert(!(0 <= tv[i as int].1 <= MAP_WIDTH as int && 0 <= tv[i as int].2
                    <= MAP_HEIGHT as int));
            }
            return Err(LoadError::OutOfBounds);
        }
        i = i + 1;
    }
    proof {
        assert(toks_in_bounds(tv));
    }
    // exactly one player token
    let mut cnt: usize = 0;
    i = 0;
    proof {
        assert(tv.take(0) =~= Seq::<(char, int, int)>::empty());
    }
    while i < toks.len()
        invariant
            tv == toks_view(toks@),
            i <= toks@.len(),
            cnt <= i,
            cnt as int == player_count(tv.take(i as int)),
        decreases toks@.len() - i,
    {
        let t = toks[i];
        proof {
            assert(tv.take(i + 1).drop_last() =~= tv.take(i as int));
            assert(tv.take(i + 1).last() == tv[i as int]);
        }
        if t.0 == 'P' {
            cnt = cnt + 1;
        }
        i = i + 1;
    }
    proof {
        assert(tv.take(toks@.len() as int) =~= tv);
    }
    if cnt != 1 {
        return Err(LoadError::PlayerCount);
    }
    build_entities(world, &toks);
    proof {
        lemma_scan_sorted(map_string@, 0, 0, false);
        assert forall|a: int, b: int| 0 <= a < b < tv.len() implies !((#[trigger] tv[a]).1 == (
        #[trigger] tv[b]).1 && tv[a].2 == tv[b].2) by {
            assert(token_before(tv[a], tv[b]));
        }
        lemma_loaded_level_wf(tv, *world);
    }
    Ok(())
}

/// Creates the entities of a checked token grid, token by token.
#[verifier::rlimit(60)]
fn build_entities(world: &mut World, toks: &Vec<(char, usize, usize)>)
    requires
        old(world).ents@.len() == 0,
        toks_in_bounds(toks_view(toks@)),
    ensures
        level_built(toks_view(toks@), final(world).ents@),
{
    let ghost tv = toks_view(toks@);
    let mut i: usize = 0;
    while i < toks.len()
        invariant
            tv == toks_view(toks@),
            toks_in_bounds(tv),
            i <= toks@.len(),
            world.ents@.len() == ents_before(tv, i as int),
            forall|m: int|
                0 <= m < i ==> token_ents_ok(
                    world.ents@,
                    ents_before(tv, m),
                    (#[trigger] tv[m]).0,
                    tv[m].1,
                    tv[m].2,
                ),
        decreases toks@.len() - i,
    {
        let t = toks[i];
        let c = t.0;
        let ghost es0 = world.ents@;
        let ghost base = ents_before(tv, i as int);
        let pos = Position { x: t.1 as u8, y: t.2 as u8, z: 0 };
        proof {
            assert(0 <= tv[i as int].1 <= MAP_WIDTH as int && 0 <= tv[i as int].2
                <= MAP_HEIGHT as int);
            assert(pos.x as int == tv[i as int].1 && pos.y as int == tv[i as int].2);
        }
        if c == '.' {
            create_floor(world, pos);
        } else if c == 'W' {
            create_floor(world, pos);
            create_wall(world, pos);
        } else if c == 'P' {
            create_floor(world, pos);
            create_player(world, pos);
        } else if c == 'B' {
            create_floor(world, pos);
            create_box(world, pos);
        } else if c == 'S' {
            create_floor(world, pos);
            create_box_spot(world, pos);
        }
        proof {
            assert(ents_before(tv, i + 1) == base + token_ent_count(tv[i as int].0));
            assert(world.ents@.len() == ents_before(tv, i + 1));
            assert(forall|j: int| 0 <= j < es0.len() ==> #[trigger] world.ents@[j] == es0[j]);
            assert(token_ents_ok(
                world.ents@,
                base,
                tv[i as int].0,
                tv[i as int].1,
                tv[i as int].2,
            ));
            assert forall|m: int| 0 <= m < i + 1 implies token_ents_ok(
                world.ents@,
                ents_before(tv, m),
                (#[trigger] tv[m]).0,
                tv[m].1,
                tv[m].2,
            ) by {
                if m < i {
                    lemma_ents_before_mono(tv, m + 1, i as int);
                    assert(token_ents_ok(es0, ents_before(tv, m), tv[m].0, tv[m].1, tv[m].2));
                }
            }
        }
        i = i + 1;
    }
}

/// The level text of the bundled default map.
pub open spec fn default_map_text() -> Seq<char> {
    "\n    N N W W W W W W\n    W W W . . . . W\n    W . . . B . . W\n    W . . . . . . W\n    W . P . . . . W\n    W . . . . . . W\n    W . . S . . . W\n    W . . . . . . W\n    W W W W W W W W\n    "@
}

/// Loads the bundled default map into an empty store.
pub fn initialize_level(world: &mut World) -> (r: Result<(), LoadError>)
    requires
        old(world).ents@.len() == 0,
    ensures
        r == Result::<(), LoadError>::Err(LoadError::UnrecognizedToken) <==> tokens_of(
            default_map_text(),
        ) is None,
        r is Err ==> final(world).ents@.len() == 0,
        r is Ok <==> (tokens_of(default_map_text()) matches Some(ts) && toks_in_bounds(ts)
            && player_count(ts) == 1),
        r is Ok ==> (tokens_of(default_map_text()) matches Some(ts) && level_built(
            ts,
            final(world).ents@,
        )),
        r is Ok ==> wf(*final(world)) && unique_player(*final(world)),
{
    let map =
        "\n    N N W W W W W W\n    W W W . . . . W\n    W . . . B . . W\n    W . . . . . . W\n    W . P . . . . W\n    W . . . . . . W\n    W . . S . . . W\n    W . . . . . . W\n    W W W W W W W W\n    ".to_owned();
    load_map(world, map)
}

/// Token prefixes never shrink the entity count.
proof fn lemma_ents_before_mono(ts: Seq<(char, int, int)>, a: int, b: int)
    requires
        0 <= a <= b,
    ensures
        ents_before(ts, a) <= ents_before(ts, b),
    decreases b,
{
    if a < b {
        lemma_ents_before_mono(ts, a, b - 1);
    }
}

/// Token `a` comes strictly before token `b` in reading order: a lower row,
/// or the same row and a lower column.
pub open spec fn token_before(a: (char, int, int), b: (char, int, int)) -> bool {
    a.2 < b.2 || (a.2 == b.2 && a.1 < b.1)
}

/// The scan emits its tokens in strictly increasing reading order, all at
/// or past the scan's current cell.
proof fn lemma_scan_sorted(s: Seq<char>, x: int, y: int, seen: bool)
    requires
        scan_tokens(s, x, y, seen) is Some,
        !seen ==> x == 0,
    ensures
        forall|i: int|
            0 <= i < scan_tokens(s, x, y, seen)->0.len() ==> {
                let t = #[trigger] scan_tokens(s, x, y, seen)->0[i];
                t.2 > y || (t.2 == y && t.1 >= x)
            },
        forall|i: int, j: int|
            0 <= i < j < scan_tokens(s, x, y, seen)->0.len() ==> token_before(
                #[trigger] scan_tokens(s, x, y, seen)->0[i],
                #[trigger] scan_tokens(s, x, y, seen)->0[j],
            ),
    decreases s.len(),
{
    if s.len() == 0 {
    } else if s[0] == '\n' {
        lemma_scan_sorted(s.skip(1), 0, if seen { y + 1 } else { y }, false);
    } else if is_blank_char(s[0]) {
        lemma_scan_sorted(s.skip(1), x, y, seen);
    } else if is_token_char(s[0]) && (s.len() == 1 || s[1] == '\n' || is_blank_char(s[1])) {
        lemma_scan_sorted(s.skip(1), x + 1, y, true);
        let rest = scan_tokens(s.skip(1), x + 1, y, true)->0;
        let ts = scan_tokens(s, x, y, seen)->0;
        assert(ts == seq![(s[0], x, y)] + rest);
        assert(ts[0] == (s[0], x, y));
        assert(forall|i: int| 0 <= i < rest.len() ==> ts[i + 1] == rest[i]);
        assert forall|i: int, j: int| 0 <= i < j < ts.len() implies token_before(
            ts[i],
            ts[j],
        ) by {
            if i > 0 {
                assert(ts[i] == rest[i - 1] && ts[j] == rest[j - 1]);
            } else {
                assert(ts[j] == rest[j - 1]);
            }
        }
    }
}

/// A player count never goes negative.
proof fn lemma_pc_nonneg(ts: Seq<(char, int, int)>)
    ensures
        player_count(ts) >= 0,
    decreases ts.len(),
{
    if ts.len() > 0 {
        lemma_pc_nonneg(ts.drop_last());
    }
}

/// A player token makes the count at least one.
proof fn lemma_pc_at_least_one(ts: Seq<(char, int, int)>, i: int)
    requires
        0 <= i < ts.len(),
        ts[i].0 == 'P',
    ensures
        player_count(ts) >= 1,
    decreases ts.len(),
{
    lemma_pc_nonneg(ts.drop_last());
    if i < ts.len() - 1 {
        lemma_pc_at_least_one(ts.drop_last(), i);
    }
}

/// Two player tokens make the count at least two.
proof fn lemma_pc_at_least_two(ts: Seq<(char, int, int)>, i: int, j: int)
    requires
        0 <= i < j < ts.len(),
        ts[i].0 == 'P',
        ts[j].0 == 'P',
    ensures
        player_count(ts) >= 2,
    decreases ts.len(),
{
    if j == ts.len() - 1 {
        lemma_pc_at_least_one(ts.drop_last(), i);
    } else {
        lemma_pc_at_least_two(ts.drop_last(), i, j);
    }
}

/// A positive player count names a player token.
proof fn lemma_pc_exists(ts: Seq<(char, int, int)>)
    requires
        player_count(ts) >= 1,
    ensures
        exists|i: int| 0 <= i < ts.len() && (#[trigger] ts[i]).0 == 'P',
    decreases ts.len(),
{
    if ts.last().0 == 'P' {
        assert(ts[ts.len() - 1].0 == 'P');
    } else {
        lemma_pc_exists(ts.drop_last());
        let i = choose|i: int| 0 <= i < ts.drop_last().len() && (#[trigger] ts.drop_last()[i]).0
            == 'P';
        assert(ts[i].0 == 'P');
    }
}

/// Every store index of a built level falls in exactly one token's range.
proof fn lemma_partition(ts: Seq<(char, int, int)>, m: int, idx: int)
    requires
        0 <= m <= ts.len(),
        0 <= idx < ents_before(ts, m),
    ensures
        exists|i: int|
            0 <= i < m && #[trigger] ents_before(ts, i) <= idx < ents_before(ts, i)
                + token_ent_count(ts[i].0),
    decreases m,
{
    if idx >= ents_before(ts, m - 1) {
        assert(ents_before(ts, m - 1) <= idx < ents_before(ts, m - 1) + token_ent_count(
            ts[m - 1].0,
        ));
    } else {
        lemma_partition(ts, m - 1, idx);
    }
}

/// A movable record of a built level is the payload of a player or box
/// token, and sits at that token's cell.
proof fn lemma_movable_token(ts: Seq<(char, int, int)>, w: World, idx: int)
    requires
        level_built(ts, w.ents@),
        0 <= idx < w.ents@.len(),
        w.ents@[idx].movable,
    ensures
        exists|i: int|
            0 <= i < ts.len() && ((#[trigger] ts[i]).0 == 'P' || ts[i].0 == 'B') && idx
                == ents_before(ts, i) + 1 && (w.ents@[idx].position matches Some(p)
                && p.x as int == ts[i].1 && p.y as int == ts[i].2) && (w.ents@[idx].player <==> ts[i].0
                == 'P'),
{
    lemma_partition(ts, ts.len() as int, idx);
    let i = choose|i: int|
        0 <= i < ts.len() && #[trigger] ents_before(ts, i) <= idx < ents_before(ts, i)
            + token_ent_count(ts[i].0);
    assert(token_ents_ok(w.ents@, ents_before(ts, i), ts[i].0, ts[i].1, ts[i].2));
    assert(ts[i].0 == 'P' || ts[i].0 == 'B');
    assert(idx == ents_before(ts, i) + 1);
}

/// An immovable record of a built level is the payload of a wall token, and
/// sits at that token's cell.
proof fn lemma_immovable_token(ts: Seq<(char, int, int)>, w: World, idx: int)
    requires
        level_built(ts, w.ents@),
        0 <= idx < w.ents@.len(),
        w.ents@[idx].immovable,
    ensures
        exists|i: int|
            0 <= i < ts.len() && (#[trigger] ts[i]).0 == 'W' && idx == ents_before(ts, i) + 1 && (
            w.ents@[idx].position matches Some(p) && p.x as int == ts[i].1 && p.y as int
                == ts[i].2),
{
    lemma_partition(ts, ts.len() as int, idx);
    let i = choose|i: int|
        0 <= i < ts.len() && #[trigger] ents_before(ts, i) <= idx < ents_before(ts, i)
            + token_ent_count(ts[i].0);
    assert(token_ents_ok(w.ents@, ents_before(ts, i), ts[i].0, ts[i].1, ts[i].2));
    assert(ts[i].0 == 'W');
    assert(idx == ents_before(ts, i) + 1);
}

/// Every record of a built level obeys the tag rules and the map bounds.
proof fn lemma_record_ok(ts: Seq<(char, int, int)>, w: World, idx: int)
    requires
        level_built(ts, w.ents@),
        toks_in_bounds(ts),
        0 <= idx < w.ents@.len(),
    ensures
        tags_ok(w.ents@[idx]),
        actor_in_map(w.ents@[idx]),
{
    lemma_partition(ts, ts.len() as int, idx);
    let i = choose|i: int|
        0 <= i < ts.len() && #[trigger] ents_before(ts, i) <= idx < ents_before(ts, i)
            + token_ent_count(ts[i].0);
    assert(token_ents_ok(w.ents@, ents_before(ts, i), ts[i].0, ts[i].1, ts[i].2));
    assert(0 <= ts[i].1 <= MAP_WIDTH as int && 0 <= ts[i].2 <= MAP_HEIGHT as int);
}

/// Law: a level built from a checked token grid — cells on the map, tokens
/// at pairwise distinct cells, exactly one player token — is a well-formed
/// level with a unique player, so it meets the movement resolver's
/// preconditions.
pub proof fn lemma_loaded_level_wf(ts: Seq<(char, int, int)>, w: World)
    requires
        level_built(ts, w.ents@),
        toks_in_bounds(ts),
        player_count(ts) == 1,
        forall|i: int, j: int|
            0 <= i < j < ts.len() ==> !((#[trigger] ts[i]).1 == (#[trigger] ts[j]).1 && ts[i].2
                == ts[j].2),
    ensures
        wf(w),
        unique_player(w),
{
    assert forall|idx: int| 0 <= idx < w.ents@.len() implies tags_ok(#[trigger] w.ents@[idx])
        && actor_in_map(w.ents@[idx]) by {
        lemma_record_ok(ts, w, idx);
    }
    assert forall|e1: int, e2: int, x: int, y: int|
        #[trigger] mov_at(w, e1, x, y) && #[trigger] mov_at(w, e2, x, y) implies e1 == e2 by {
        lemma_movable_token(ts, w, e1);
        lemma_movable_token(ts, w, e2);
        let i1 = choose|i: int|
            0 <= i < ts.len() && ((#[trigger] ts[i]).0 == 'P' || ts[i].0 == 'B') && e1
                == ents_before(ts, i) + 1 && (w.ents@[e1].position matches Some(p) && p.x as int
                == ts[i].1 && p.y as int == ts[i].2);
        let i2 = choose|i: int|
            0 <= i < ts.len() && ((#[trigger] ts[i]).0 == 'P' || ts[i].0 == 'B') && e2
                == ents_before(ts, i) + 1 && (w.ents@[e2].position matches Some(p) && p.x as int
                == ts[i].1 && p.y as int == ts[i].2);
        assert(ts[i1].1 == x && ts[i1].2 == y && ts[i2].1 == x && ts[i2].2 == y);
        assert(i1 == i2);
    }
    assert forall|e1: int, e2: int, x: int, y: int|
        #[trigger] imm_at(w, e1, x, y) && #[trigger] imm_at(w, e2, x, y) implies e1 == e2 by {
        lemma_immovable_token(ts, w, e1);
        lemma_immovable_token(ts, w, e2);
        let i1 = choose|i: int|
            0 <= i < ts.len() && (#[trigger] ts[i]).0 == 'W' && e1 == ents_before(ts, i) + 1 && (
            w.ents@[e1].position matches Some(p) && p.x as int == ts[i].1 && p.y as int
                == ts[i].2);
        let i2 = choose|i: int|
            0 <= i < ts.len() && (#[trigger] ts[i]).0 == 'W' && e2 == ents_before(ts, i) + 1 && (
            w.ents@[e2].position matches Some(p) && p.x as int == ts[i].1 && p.y as int
                == ts[i].2);
        assert(ts[i1].1 == x && ts[i1].2 == y && ts[i2].1 == x && ts[i2].2 == y);
        assert(i1 == i2);
    }
    // exactly one player entity: the unique player token's payload
    lemma_pc_exists(ts);
    let ip = choose|i: int| 0 <= i < ts.len() && (#[trigger] ts[i]).0 == 'P';
    assert(token_ents_ok(w.ents@, ents_before(ts, ip), ts[ip].0, ts[ip].1, ts[ip].2));
    lemma_ents_before_mono(ts, ip + 1, ts.len() as int);
    assert(is_player_ent(w, ents_before(ts, ip) + 1));
    assert forall|e1: int, e2: int|
        #[trigger] is_player_ent(w, e1) && #[trigger] is_player_ent(w, e2) implies e1 == e2 by {
        assert(tags_ok(w.ents@[e1])) by {
            lemma_record_ok(ts, w, e1);
        }
        assert(tags_ok(w.ents@[e2])) by {
            lemma_record_ok(ts, w, e2);
        }
        lemma_movable_token(ts, w, e1);
        lemma_movable_token(ts, w, e2);
        let i1 = choose|i: int|
            0 <= i < ts.len() && ((#[trigger] ts[i]).0 == 'P' || ts[i].0 == 'B') && e1
                == ents_before(ts, i) + 1 && (w.ents@[e1].position matches Some(p) && p.x as int
                == ts[i].1 && p.y as int == ts[i].2) && (w.ents@[e1].player <==> ts[i].0 == 'P');
        let i2 = choose|i: int|
            0 <= i < ts.len() && ((#[trigger] ts[i]).0 == 'P' || ts[i].0 == 'B') && e2
                == ents_before(ts, i) + 1 && (w.ents@[e2].position matches Some(p) && p.x as int
                == ts[i].1 && p.y as int == ts[i].2) && (w.ents@[e2].player <==> ts[i].0 == 'P');
        assert(ts[i1].0 == 'P' && ts[i2].0 == 'P');
        if i1 != i2 {
            if i1 < i2 {
                lemma_pc_at_least_two(ts, i1, i2);
            } else {
                lemma_pc_at_least_two(ts, i2, i1);
            }
        }
    }
}

} // verus!
