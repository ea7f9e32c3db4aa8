//! The world: a maze template, the entities on it, and the rules by which
//! players, mobs and shots act.
//!
//! No occupancy grid is kept between operations: what a cell holds is
//! computed from the entity lists each time it is needed (`occupant`), so
//! it can never go stale.

use vstd::prelude::*;

use crate::api::{GetStateResponse, PlayerAction};
use crate::clock::time_of_day;
use crate::map::{
    blank_cell, free_cells, grid_text, interior, layout_cells, layout_error, plain, rectangular, same_cell, step_x, step_y, walled, ConfigError,
    Direction, Grid, MapObject, ObjectType, Point,
};
use crate::rng::{random_below, random_id};
use crate::text::{decimal, decimal_text};

verus! {

/// A movable entity: its id and where it stands (and faces).
#[derive(Clone, Copy, Debug, PartialEq, Eq, Structural)]
pub struct Entity {
    pub id: u64,
    pub pos: Point,
}

/// Why a player's action was refused.
#[derive(Clone, Copy, Debug, PartialEq, Eq, Structural)]
pub enum ActionError {
    /// The game already has a winner.
    Finished,
    /// The player is dead.
    Dead,
    /// No live player has this id.
    UnknownPlayer,
    /// No free cell is left for a new player.
    NoRoom,
    /// A freshly drawn id is already in use.
    IdTaken,
}

/// The state of a world, apart from its log.
pub struct WorldView {
    pub template: Seq<Seq<MapObject>>,
    pub exit: Point,
    pub players: Seq<Entity>,
    pub mobs: Seq<Entity>,
    pub candies: Seq<Entity>,
    pub shots: Seq<Entity>,
    pub winner: Option<u64>,
    pub dead: Seq<u64>,
    pub names: Seq<(u64, Seq<char>)>,
}

/// How many entities of `s` stand on `(x, y)`.
pub open spec fn count_at(s: Seq<Entity>, x: int, y: int) -> nat
    decreases s.len(),
{
    if s.len() == 0 {
        0
    } else {
        count_at(s.drop_last(), x, y) + if at_cell(s.last(), x, y) { 1nat } else { 0nat }
    }
}

/// How many players, mobs, candies and shots stand on `(x, y)`.
pub open spec fn crowd_of(p: Seq<Entity>, m: Seq<Entity>, c: Seq<Entity>, s: Seq<Entity>, x: int, y: int) -> nat {
    count_at(p, x, y) + count_at(m, x, y) + count_at(c, x, y) + count_at(s, x, y)
}

/// How many entities of any kind stand on `(x, y)`.
pub open spec fn crowd(v: WorldView, x: int, y: int) -> nat {
    crowd_of(v.players, v.mobs, v.candies, v.shots, x, y)
}

/// No cell holds more than one entity.
pub open spec fn one_per_cell(v: WorldView) -> bool {
    forall|x: int, y: int| #[trigger] crowd_of(v.players, v.mobs, v.candies, v.shots, x, y) <= 1
}

/// Whether entity `e` stands on cell `(x, y)`.
pub open spec fn at_cell(e: Entity, x: int, y: int) -> bool {
    e.pos.x == x && e.pos.y == y
}

/// The index of the last entity of `s` on `(x, y)`, or -1.
pub open spec fn last_at(s: Seq<Entity>, x: int, y: int) -> int
    decreases s.len(),
{
    if s.len() == 0 {
        -1
    } else if at_cell(s.last(), x, y) {
        s.len() - 1
    } else {
        last_at(s.drop_last(), x, y)
    }
}

/// The index of the first entity of `s` with id `id`, or -1.
pub open spec fn index_of(s: Seq<Entity>, id: u64) -> int
    decreases s.len(),
{
    if s.len() == 0 {
        -1
    } else if index_of(s.drop_last(), id) >= 0 {
        index_of(s.drop_last(), id)
    } else if s.last().id == id {
        s.len() - 1
    } else {
        -1
    }
}

/// `s` without its first entity of id `id`, if it has one.
pub open spec fn remove_id(s: Seq<Entity>, id: u64) -> Seq<Entity> {
    if index_of(s, id) >= 0 {
        s.remove(index_of(s, id))
    } else {
        s
    }
}

/// The index of the first name recorded for `id`, or -1.
pub open spec fn name_index(ns: Seq<(u64, Seq<char>)>, id: u64) -> int
    decreases ns.len(),
{
    if ns.len() == 0 {
        -1
    } else if name_index(ns.drop_last(), id) >= 0 {
        name_index(ns.drop_last(), id)
    } else if ns.last().0 == id {
        ns.len() - 1
    } else {
        -1
    }
}

/// The name recorded for `id`; empty if there is none.
pub open spec fn name_of(ns: Seq<(u64, Seq<char>)>, id: u64) -> Seq<char> {
    if name_index(ns, id) >= 0 {
        ns[name_index(ns, id)].1
    } else {
        Seq::empty()
    }
}

/// What cell `(x, y)` holds: the template with the entities laid over it,
/// players first, then mobs, candies and shots, a later entity covering an
/// earlier one on the same cell.
pub open spec fn occupant(v: WorldView, x: int, y: int) -> MapObject {
    let si = last_at(v.shots, x, y);
    let ci = last_at(v.candies, x, y);
    let mi = last_at(v.mobs, x, y);
    let pi = last_at(v.players, x, y);
    if si >= 0 {
        MapObject { id: v.shots[si].id, type_: ObjectType::Shot(v.shots[si].pos.dir) }
    } else if ci >= 0 {
        MapObject { id: v.candies[ci].id, type_: ObjectType::Candy }
    } else if mi >= 0 {
        MapObject { id: v.mobs[mi].id, type_: ObjectType::Mob }
    } else if pi >= 0 {
        MapObject { id: v.players[pi].id, type_: ObjectType::Player(v.players[pi].pos.dir) }
    } else {
        v.template[y][x]
    }
}

pub open spec fn grid_width(v: WorldView) -> int {
    v.template[0].len() as int
}

pub open spec fn grid_height(v: WorldView) -> int {
    v.template.len() as int
}

/// Every entity of `s` stands on an interior cell.
pub open spec fn all_inside(s: Seq<Entity>, w: int, h: int) -> bool {
    forall|i: int| 0 <= i < s.len() ==> interior((#[trigger] s[i]).pos.x as int, s[i].pos.y as int, w, h)
}

/// The invariant of a world.
pub open spec fn world_wf(v: WorldView) -> bool {
    let w = grid_width(v);
    let h = grid_height(v);
    &&& rectangular(v.template)
    &&& walled(v.template)
    &&& plain(v.template)
    &&& w <= usize::MAX
    &&& h <= usize::MAX
    &&& interior(v.exit.x as int, v.exit.y as int, w, h)
    &&& v.template[v.exit.y as int][v.exit.x as int].type_ == ObjectType::Exit
    &&& all_inside(v.players, w, h)
    &&& all_inside(v.mobs, w, h)
    &&& all_inside(v.candies, w, h)
    &&& all_inside(v.shots, w, h)
    &&& one_per_cell(v)
    &&& forall|i: int, j: int| 0 <= i < j < v.players.len() ==> (#[trigger] v.players[i]).id != (#[trigger] v.players[j]).id
    &&& forall|i: int, j: int| 0 <= i < v.players.len() && 0 <= j < v.dead.len() ==> (#[trigger] v.players[i]).id != #[trigger] v.dead[j]
    &&& forall|i: int, j: int| 0 <= i < j < v.names.len() ==> (#[trigger] v.names[i]).0 != (#[trigger] v.names[j]).0
}

/// `line` ends with `msg`.
pub open spec fn ends_with(line: Seq<char>, msg: Seq<char>) -> bool {
    msg.len() <= line.len() && line.subrange(line.len() - msg.len(), line.len() as int) == msg
}

/// `new` is `old` followed by one line for each message of `msgs`, in order,
/// each ending with its message.
pub open spec fn logs_extended(old: Seq<Seq<char>>, new: Seq<Seq<char>>, msgs: Seq<Seq<char>>) -> bool {
    &&& new.len() == old.len() + msgs.len()
    &&& new.subrange(0, old.len() as int) == old
    &&& forall|i: int| 0 <= i < msgs.len() ==> ends_with(#[trigger] new[old.len() + i], msgs[i])
}

/// Why `id` may not act now, if it may not: the game is over, the player is
/// dead, or no live player has that id.
pub open spec fn action_refusal(v: WorldView, id: u64) -> Option<ActionError> {
    if v.winner is Some {
        Some(ActionError::Finished)
    } else if v.dead.contains(id) {
        Some(ActionError::Dead)
    } else if index_of(v.players, id) < 0 {
        Some(ActionError::UnknownPlayer)
    } else {
        None
    }
}

pub open spec fn won_msg(name: Seq<char>) -> Seq<char> {
    "Player "@ + name + " won the game"@
}

pub open spec fn more_candies_msg(n: nat, name: Seq<char>) -> Seq<char> {
    "You need to collect "@ + decimal(n) + " more candies, "@ + name
}

pub open spec fn mob_kill_msg(name: Seq<char>) -> Seq<char> {
    name + " killed by mob"@
}

pub open spec fn candies_left_msg(n: nat) -> Seq<char> {
    decimal(n) + " candies left"@
}

/// The world after player `id` steps in direction `dir`, and the messages logged.
pub open spec fn move_outcome(v: WorldView, id: u64, dir: Direction) -> (WorldView, Seq<Seq<char>>) {
    let i = index_of(v.players, id);
    let p = v.players[i].pos;
    let tx = step_x(p.x as int, dir);
    let ty = step_y(p.y as int, dir);
    let name = name_of(v.names, id);
    let turned = v.players.update(i, Entity { id, pos: Point { x: p.x, y: p.y, dir } });
    let moved = v.players.update(i, Entity { id, pos: Point { x: tx as usize, y: ty as usize, dir } });
    let occ = occupant(v, tx, ty);
    match occ.type_ {
        ObjectType::Empty => (WorldView { players: moved, ..v }, Seq::empty()),
        ObjectType::Exit => if v.candies.len() == 0 {
            (WorldView { players: moved, winner: Some(id), ..v }, seq![won_msg(name)])
        } else {
            (WorldView { players: turned, ..v }, seq![more_candies_msg(v.candies.len(), name)])
        },
        ObjectType::Mob => (
            WorldView { players: v.players.remove(i), dead: v.dead.push(id), ..v },
            seq![mob_kill_msg(name)],
        ),
        ObjectType::Candy => (
            WorldView { players: moved, candies: v.candies.remove(last_at(v.candies, tx, ty)), ..v },
            seq![candies_left_msg((v.candies.len() - 1) as nat)],
        ),
        _ => (WorldView { players: turned, ..v }, Seq::empty()),
    }
}

/// The world after player `id` shoots, a new shot taking id `shot_id`, and the messages logged.
pub open spec fn shoot_outcome(v: WorldView, id: u64, shot_id: u64) -> (WorldView, Seq<Seq<char>>) {
    let p = v.players[index_of(v.players, id)].pos;
    let tx = step_x(p.x as int, p.dir);
    let ty = step_y(p.y as int, p.dir);
    let occ = occupant(v, tx, ty);
    let name = name_of(v.names, id);
    match occ.type_ {
        ObjectType::Empty => (
            WorldView { shots: v.shots.push(Entity { id: shot_id, pos: Point { x: tx as usize, y: ty as usize, dir: p.dir } }), ..v },
            Seq::empty(),
        ),
        ObjectType::Mob => (WorldView { mobs: v.mobs.remove(last_at(v.mobs, tx, ty)), ..v }, seq!["Mob killed by "@ + name]),
        ObjectType::Player(_) => (
            WorldView { players: v.players.remove(last_at(v.players, tx, ty)), dead: v.dead.push(occ.id), ..v },
            seq![name + " killed "@ + name_of(v.names, occ.id)],
        ),
        _ => (v, Seq::empty()),
    }
}

/// The world after mob number `k` tries a step in direction `dir`, and the messages logged.
pub open spec fn mob_outcome(v: WorldView, k: int, dir: Direction) -> (WorldView, Seq<Seq<char>>) {
    let m = v.mobs[k];
    let tx = step_x(m.pos.x as int, dir);
    let ty = step_y(m.pos.y as int, dir);
    let occ = occupant(v, tx, ty);
    let moved = v.mobs.update(k, Entity { id: m.id, pos: Point { x: tx as usize, y: ty as usize, dir: Direction::Up } });
    match occ.type_ {
        ObjectType::Empty => (WorldView { mobs: moved, ..v }, Seq::empty()),
        ObjectType::Player(_) => (
            WorldView { mobs: moved, players: v.players.remove(last_at(v.players, tx, ty)), dead: v.dead.push(occ.id), ..v },
            seq![mob_kill_msg(name_of(v.names, occ.id))],
        ),
        _ => (v, Seq::empty()),
    }
}

/// The world after shot number `j` flies one cell, the index of the next
/// shot to move, and the messages logged.
pub open spec fn shot_outcome(v: WorldView, j: int) -> (WorldView, int, Seq<Seq<char>>) {
    let s = v.shots[j];
    let tx = step_x(s.pos.x as int, s.pos.dir);
    let ty = step_y(s.pos.y as int, s.pos.dir);
    let occ = occupant(v, tx, ty);
    match occ.type_ {
        ObjectType::Empty => (
            WorldView { shots: v.shots.update(j, Entity { id: s.id, pos: Point { x: tx as usize, y: ty as usize, dir: s.pos.dir } }), ..v },
            j + 1,
            Seq::empty(),
        ),
        ObjectType::Mob => (
            WorldView { mobs: v.mobs.remove(last_at(v.mobs, tx, ty)), shots: v.shots.remove(j), ..v },
            j,
            seq!["Mob killed by stray shot"@],
        ),
        ObjectType::Player(_) => (
            WorldView { players: v.players.remove(last_at(v.players, tx, ty)), dead: v.dead.push(occ.id), shots: v.shots.remove(j), ..v },
            j,
            seq![name_of(v.names, occ.id) + " killed by stray shot"@],
        ),
        _ => (WorldView { shots: v.shots.remove(j), ..v }, j, Seq::empty()),
    }
}

/// The world after every shot from number `j` on has flown one cell, in
/// order, each seeing the effects of those before it; and the messages logged.
pub open spec fn shots_from(v: WorldView, j: int) -> (WorldView, Seq<Seq<char>>)
    decreases v.shots.len() - j,
{
    if 0 <= j < v.shots.len() {
        let r = shot_outcome(v, j);
        let rest = shots_from(r.0, r.1);
        (rest.0, r.2 + rest.1)
    } else {
        (v, Seq::empty())
    }
}

/// Whether `(x, y)` is a cell of the world that holds nothing.
pub open spec fn free_cell(v: WorldView, x: int, y: int) -> bool {
    &&& 0 <= x < grid_width(v)
    &&& 0 <= y < grid_height(v)
    &&& occupant(v, x, y).type_ == ObjectType::Empty
}

/// Why player `id` may not join at `(x, y)`, if it may not: the game is
/// over, the cell is taken, or the id is in use by a live or dead player
/// or a recorded name.
pub open spec fn join_refusal(v: WorldView, id: u64, x: int, y: int) -> Option<ActionError> {
    if v.winner is Some {
        Some(ActionError::Finished)
    } else if !free_cell(v, x, y) {
        Some(ActionError::NoRoom)
    } else if index_of(v.players, id) >= 0 || v.dead.contains(id) || name_index(v.names, id) >= 0 {
        Some(ActionError::IdTaken)
    } else {
        None
    }
}

pub open spec fn entered_msg(name: Seq<char>) -> Seq<char> {
    "Player "@ + name + " entered world"@
}

/// The world after player `id`, called `name`, joins at `(x, y)`, facing up.
pub open spec fn join_outcome(v: WorldView, name: Seq<char>, id: u64, x: int, y: int) -> WorldView {
    WorldView {
        players: v.players.push(Entity { id, pos: Point { x: x as usize, y: y as usize, dir: Direction::Up } }),
        names: v.names.push((id, name)),
        ..v
    }
}

/// The test that keeps every id but `id`.
pub open spec fn not_id(id: u64) -> spec_fn(u64) -> bool {
    |d: u64| d != id
}

/// Whether `id` is known to the world at all: alive, dead, or named.
pub open spec fn known(v: WorldView, id: u64) -> bool {
    index_of(v.players, id) >= 0 || v.dead.contains(id) || name_index(v.names, id) >= 0
}

pub open spec fn left_msg(name: Seq<char>) -> Seq<char> {
    "Player "@ + name + " left the game"@
}

/// The world after player `id` leaves: gone from the live players, the dead
/// and the names.
pub open spec fn leave_outcome(v: WorldView, id: u64) -> WorldView {
    WorldView {
        players: remove_id(v.players, id),
        dead: v.dead.filter(not_id(id)),
        names: if name_index(v.names, id) >= 0 { v.names.remove(name_index(v.names, id)) } else { v.names },
        ..v
    }
}

/// Each entity as a placed object: players, then mobs, candies and shots.
pub open spec fn object_list(v: WorldView) -> Seq<(ObjectType, Point)> {
    v.players.map_values(|e: Entity| (ObjectType::Player(e.pos.dir), e.pos))
        + v.mobs.map_values(|e: Entity| (ObjectType::Mob, e.pos))
        + v.candies.map_values(|e: Entity| (ObjectType::Candy, e.pos))
        + v.shots.map_values(|e: Entity| (ObjectType::Shot(e.pos.dir), e.pos))
}

/// A read-only picture of the world.
pub struct WorldState {
    pub objects: Vec<(ObjectType, Point)>,
    pub winner: Option<u64>,
    pub dead_players: Vec<u64>,
    pub logs: Vec<String>,
}

/// Whether `(x, y)` is an interior cell that is empty in the template `rows`:
/// neither a wall nor the exit.
pub open spec fn free_in(rows: Seq<Seq<MapObject>>, x: int, y: int) -> bool {
    &&& interior(x, y, rows[0].len() as int, rows.len() as int)
    &&& rows[y][x].type_ == ObjectType::Empty
}

/// Whether some cell of `rows` is an exit.
pub open spec fn has_exit(rows: Seq<Seq<MapObject>>) -> bool {
    exists|x: int, y: int| 0 <= y < rows.len() && 0 <= x < rows[y].len() && (#[trigger] rows[y][x]).type_ == ObjectType::Exit
}

/// Whether some point of `s` names the cell of `p`.
pub open spec fn listed(s: Seq<Point>, p: Point) -> bool {
    exists|k: int| 0 <= k < s.len() && same_cell(s[k], p)
}

/// No two points of `s` name the same cell.
pub open spec fn distinct_cells(s: Seq<Point>) -> bool {
    forall|i: int, j: int| 0 <= i < s.len() && 0 <= j < s.len() && i != j ==> !same_cell(#[trigger] s[i], #[trigger] s[j])
}

/// No two entities of `s` stand on the same cell.
pub open spec fn apart(s: Seq<Entity>) -> bool {
    forall|i: int, j: int| 0 <= i < s.len() && 0 <= j < s.len() && i != j ==> !same_cell((#[trigger] s[i]).pos, (#[trigger] s[j]).pos)
}

/// The world.
pub struct World {
    map_template: Grid,
    exit: Point,
    players: Vec<Entity>,
    mobs: Vec<Entity>,
    candies: Vec<Entity>,
    shots: Vec<Entity>,
    winner: Option<u64>,
    dead_players: Vec<u64>,
    player_names: Vec<(u64, String)>,
    logs: Vec<String>,
}

impl View for World {
    type V = WorldView;

    closed spec fn view(&self) -> WorldView {
        WorldView {
            template: self.map_template@,
            exit: self.exit,
            players: self.players@,
            mobs: self.mobs@,
            candies: self.candies@,
            shots: self.shots@,
            winner: self.winner,
            dead: self.dead_players@,
            names: Seq::new(self.player_names@.len(), |i: int| (self.player_names@[i].0, self.player_names@[i].1@)),
        }
    }
}

impl World {
    /// The world's invariant: a walled template holding the exit, every
    /// entity inside the ring, player ids distinct and none of them dead.
    pub closed spec fn wf(&self) -> bool {
        &&& self.map_template.wf()
        &&& world_wf(self@)
    }

    /// What the invariant of a world holds, stated over its view.
    pub proof fn lemma_wf(&self)
        requires
            self.wf(),
        ensures
            world_wf(self@),
    {
    }

    /// The log, line by line.
    pub closed spec fn log_lines(&self) -> Seq<Seq<char>> {
        Seq::new(self.logs@.len(), |i: int| self.logs@[i]@)
    }

    /// What cell `(x, y)` holds now.
    pub fn occupant_at(&self, x: usize, y: usize) -> (o: MapObject)
        requires
            self.wf(),
            x < grid_width(self@),
            y < grid_height(self@),
        ensures
            o == occupant(self@, x as int, y as int),
    {
        if let Some(i) = find_at(&self.shots, x, y) {
            return MapObject { id: self.shots[i].id, type_: ObjectType::Shot(self.shots[i].pos.dir) };
        }
        if let Some(i) = find_at(&self.candies, x, y) {
            return MapObject { id: self.candies[i].id, type_: ObjectType::Candy };
        }
        if let Some(i) = find_at(&self.mobs, x, y) {
            return MapObject { id: self.mobs[i].id, type_: ObjectType::Mob };
        }
        if let Some(i) = find_at(&self.players, x, y) {
            return MapObject { id: self.players[i].id, type_: ObjectType::Player(self.players[i].pos.dir) };
        }
        *self.map_template.get_object(&Point::new(x, y))
    }

    /// Where the name of `id` is recorded, if it is.
    fn find_name(&self, id: u64) -> (k: Option<usize>)
        ensures
            k matches Some(j) ==> j < self@.names.len() && name_index(self@.names, id) == j,
            k is None ==> name_index(self@.names, id) == -1,
    {
        let ghost ns = self@.names;
        let mut k: usize = 0;
        while k < self.player_names.len()
            invariant
                k <= self.player_names@.len(),
                ns == self@.names,
                ns.len() == self.player_names@.len(),
                name_index(ns.subrange(0, k as int), id) == -1,
            decreases self.player_names@.len() - k,
        {
            assert(ns.subrange(0, k + 1).drop_last() =~= ns.subrange(0, k as int));
            if self.player_names[k].0 == id {
                proof { lemma_name_index_prefix(ns, id, k as int); }
                return Some(k);
            }
            k = k + 1;
        }
        assert(ns.subrange(0, k as int) =~= ns);
        None
    }

    /// The name recorded for `id`; empty if there is none.
    fn name_of(&self, id: u64) -> (name: String)
        ensures
            name@ == name_of(self@.names, id),
    {
        let mut i: usize = 0;
        while i < self.player_names.len()
            invariant
                i <= self.player_names@.len(),
                name_index(self@.names.subrange(0, i as int), id) == -1,
            decreases self.player_names@.len() - i,
        {
            assert(self@.names.subrange(0, i + 1).drop_last() =~= self@.names.subrange(0, i as int));
            if self.player_names[i].0 == id {
                proof { lemma_name_index_prefix(self@.names, id, i as int); }
                return self.player_names[i].1.clone();
            }
            i = i + 1;
        }
        assert(self@.names.subrange(0, i as int) =~= self@.names);
        String::new()
    }

    /// Appends `msg` to the log, stamped with the time of day.
    fn log(&mut self, msg: String)
        ensures
            final(self)@ == old(self)@,
            final(self).map_template == old(self).map_template,
            logs_extended(old(self).log_lines(), final(self).log_lines(), seq![msg@]),
    {
        let mut line = time_of_day();
        line.append(": ");
        line.append(msg.as_str());
        assert(line@.subrange(line@.len() - msg@.len(), line@.len() as int) =~= msg@);
        self.logs.push(line);
        assert(self.log_lines().subrange(0, old(self).log_lines().len() as int) =~= old(self).log_lines());
    }

    /// Why `id` may not act now, if it may not.
    fn refusal(&self, id: u64) -> (r: Option<ActionError>)
        ensures
            r == action_refusal(self@, id),
    {
        if self.winner.is_some() {
            return Some(ActionError::Finished);
        }
        let mut i: usize = 0;
        while i < self.dead_players.len()
            invariant
                i <= self.dead_players@.len(),
                self.winner is None,
                forall|j: int| 0 <= j < i ==> self.dead_players@[j] != id,
            decreases self.dead_players@.len() - i,
        {
            if self.dead_players[i] == id {
                assert(self@.dead[i as int] == id);
                assert(self@.dead.contains(id));
                return Some(ActionError::Dead);
            }
            i = i + 1;
        }
        if find_id(&self.players, id).is_none() {
            return Some(ActionError::UnknownPlayer);
        }
        None
    }

    /// Moves player `player_id` one cell in `direction`, by the rules of the
    /// cell it moves into: onto an empty cell; onto the exit only once every
    /// candy is collected, winning the game; onto a candy, eating it; into a
    /// mob, dying; anything else blocks it. It turns to `direction` in every case.
    #[verifier::rlimit(50)]
    pub fn move_player(&mut self, player_id: u64, direction: Direction) -> (r: Result<(), ActionError>)
        requires
            old(self).wf(),
        ensures
            final(self).wf(),
            action_refusal(old(self)@, player_id) matches Some(e) ==> {
                &&& r == Err::<(), ActionError>(e)
                &&& final(self)@ == old(self)@
                &&& final(self).log_lines() == old(self).log_lines()
            },
            action_refusal(old(self)@, player_id) is None ==> {
                &&& r is Ok
                &&& final(self)@ == move_outcome(old(self)@, player_id, direction).0
                &&& logs_extended(old(self).log_lines(), final(self).log_lines(), move_outcome(old(self)@, player_id, direction).1)
            },
    {
        if let Some(e) = self.refusal(player_id) {
            return Err(e);
        }
        let ghost v = self@;
        proof { lemma_index_of(v.players, player_id); }
        let i = find_id(&self.players, player_id).unwrap();
        let p = self.players[i].pos;
        assert(v.players[i as int].pos == p);
        assert(interior(p.x as int, p.y as int, grid_width(v), grid_height(v)));
        let w = self.map_template.width();
        let h = self.map_template.height();
        let t = p.turn_and_step(direction);
        let occ = self.occupant_at(t.x, t.y);
        proof { lemma_occupant_inside(v, t.x as int, t.y as int); }
        let name = self.name_of(player_id);
        let turned = Entity { id: player_id, pos: Point { x: p.x, y: p.y, dir: direction } };
        let moved = Entity { id: player_id, pos: Point { x: t.x, y: t.y, dir: direction } };
        match occ.type_ {
            ObjectType::Empty => {
                self.players.set(i, moved);
                proof {
                    lemma_vacant(v, t.x as int, t.y as int);
                    assert forall|x: int, y: int| #[trigger] crowd_of(self.players@, self.mobs@, self.candies@, self.shots@, x, y) <= 1 by {
                        lemma_count_update(v.players, i as int, moved, x, y);
                        assert(crowd(v, x, y) <= 1);
                    }
                }
                assert(self@ == move_outcome(v, player_id, direction).0);
                proof { lemma_empty_log(old(self).log_lines()); }
            },
            ObjectType::Exit => {
                if self.candies.len() == 0 {
                    self.players.set(i, moved);
                    proof {
                        lemma_vacant(v, t.x as int, t.y as int);
                        assert forall|x: int, y: int| #[trigger] crowd_of(self.players@, self.mobs@, self.candies@, self.shots@, x, y) <= 1 by {
                            lemma_count_update(v.players, i as int, moved, x, y);
                            assert(crowd(v, x, y) <= 1);
                        }
                    }
                    self.winner = Some(player_id);
                    let mut m = String::from_str("Player ");
                    m.append(name.as_str());
                    m.append(" won the game");
                    self.log(m);
                } else {
                    self.players.set(i, turned);
                    proof {
                        lemma_vacant(v, t.x as int, t.y as int);
                        assert forall|x: int, y: int| #[trigger] crowd_of(self.players@, self.mobs@, self.candies@, self.shots@, x, y) <= 1 by {
                            lemma_count_update(v.players, i as int, turned, x, y);
                            assert(crowd(v, x, y) <= 1);
                        }
                    }
                    let mut m = String::from_str("You need to collect ");
                    m.append(decimal_text(self.candies.len() as u64).as_str());
                    m.append(" more candies, ");
                    m.append(name.as_str());
                    self.log(m);
                }
                assert(self@ == move_outcome(v, player_id, direction).0);
            },
            ObjectType::Mob => {
                self.players.remove(i);
                proof {
                    assert forall|x: int, y: int| #[trigger] crowd_of(self.players@, self.mobs@, self.candies@, self.shots@, x, y) <= 1 by {
                        lemma_count_remove(v.players, i as int, x, y);
                        assert(crowd(v, x, y) <= 1);
                    }
                }
                self.dead_players.push(player_id);
                let mut m = name;
                m.append(" killed by mob");
                self.log(m);
                assert(self@ == move_outcome(v, player_id, direction).0);
            },
            ObjectType::Candy => {
                self.players.set(i, moved);
                proof { lemma_last_at_range(v.candies, t.x as int, t.y as int); }
                let k = find_at(&self.candies, t.x, t.y).unwrap();
                proof { lemma_remove_inside(self.candies@, k as int, w as int, h as int); }
                self.candies.remove(k);
                proof {
                    lemma_last_at_range(v.candies, t.x as int, t.y as int);
                    assert forall|x: int, y: int| #[trigger] crowd_of(self.players@, self.mobs@, self.candies@, self.shots@, x, y) <= 1 by {
                        lemma_count_update(v.players, i as int, moved, x, y);
                        lemma_count_remove(v.candies, k as int, x, y);
                        assert(crowd(v, x, y) <= 1);
                    }
                }
                let mut m = decimal_text(self.candies.len() as u64);
                m.append(" candies left");
                self.log(m);
                assert(self@ == move_outcome(v, player_id, direction).0);
            },
            _ => {
                self.players.set(i, turned);
                proof {
                    lemma_vacant(v, t.x as int, t.y as int);
                    assert forall|x: int, y: int| #[trigger] crowd_of(self.players@, self.mobs@, self.candies@, self.shots@, x, y) <= 1 by {
                        lemma_count_update(v.players, i as int, turned, x, y);
                        assert(crowd(v, x, y) <= 1);
                    }
                }
                assert(self@ == move_outcome(v, player_id, direction).0);
                proof { lemma_empty_log(old(self).log_lines()); }
            },
        }
        assert(world_wf(self@));
        Ok(())
    }



    /// A world on `template`, whose exit is at `exit`, with `candy_cnt`
    /// candies and `mob_cnt` mobs on distinct free cells drawn at random.
    /// It fails when the template has fewer free cells than that.
    pub fn populate(template: Grid, exit: Point, mob_cnt: usize, candy_cnt: usize) -> (r: Result<World, ConfigError>)
        requires
            template.wf(),
            plain(template@),
            interior(exit.x as int, exit.y as int, template.spec_width(), template.spec_height()),
            template@[exit.y as int][exit.x as int].type_ == ObjectType::Exit,
        ensures
            r is Err <==> mob_cnt + candy_cnt > template.free_set().len(),
            r is Err ==> r == Err::<World, ConfigError>(ConfigError::NotEnoughRoom),
            r matches Ok(w) ==> {
                &&& w.wf()
                &&& w@.template == template@
                &&& w@.exit == exit
                &&& w@.candies.len() == candy_cnt
                &&& w@.mobs.len() == mob_cnt
                &&& w@.players.len() == 0
                &&& w@.shots.len() == 0
                &&& w@.winner is None
                &&& w@.dead.len() == 0
                &&& w@.names.len() == 0
                &&& w.log_lines().len() == 0
                &&& apart(w@.candies + w@.mobs)
                &&& forall|i: int| 0 <= i < (w@.candies + w@.mobs).len()
                    ==> free_in(w@.template, (#[trigger] (w@.candies + w@.mobs)[i]).pos.x as int, (w@.candies + w@.mobs)[i].pos.y as int)
            },
    {
        let mut free = template.empty_points();
        let tw = template.width();
        let th = template.height();
        if candy_cnt > free.len() || mob_cnt > free.len() - candy_cnt {
            return Err(ConfigError::NotEnoughRoom);
        }
        let ghost all = free@;
        proof { template.lemma_shape(); }
        let candies = draw_cells(&mut free, candy_cnt);
        let ghost rest = free@;
        let mobs = draw_cells(&mut free, mob_cnt);
        let w = World {
            map_template: template,
            exit,
            players: Vec::new(),
            mobs,
            candies,
            shots: Vec::new(),
            winner: None,
            dead_players: Vec::new(),
            player_names: Vec::new(),
            logs: Vec::new(),
        };
        let ghost both = w@.candies + w@.mobs;
        assert forall|i: int| 0 <= i < both.len() implies template.is_free((#[trigger] both[i]).pos.x as int, both[i].pos.y as int)
            && listed(all, both[i].pos) by {
            if i >= candy_cnt {
                assert(both[i] == mobs@[i - candy_cnt]);
                let k = choose|k: int| 0 <= k < rest.len() && same_cell(rest[k], mobs@[i - candy_cnt].pos);
                assert(listed(all, rest[k]));
                let k2 = choose|k2: int| 0 <= k2 < all.len() && same_cell(all[k2], rest[k]);
                assert(template.is_free(all[k2].x as int, all[k2].y as int));
            } else {
                assert(both[i] == candies@[i]);
                let k = choose|k: int| 0 <= k < all.len() && same_cell(all[k], candies@[i].pos);
                assert(template.is_free(all[k].x as int, all[k].y as int));
            }
        }
        assert forall|i: int, j: int| 0 <= i < both.len() && 0 <= j < both.len() && i != j
            implies !same_cell((#[trigger] both[i]).pos, (#[trigger] both[j]).pos) by {
            if i < candy_cnt && j >= candy_cnt {
                assert(both[j] == mobs@[j - candy_cnt]);
                assert(!listed(rest, candies@[i].pos));
            } else if i >= candy_cnt && j < candy_cnt {
                assert(both[i] == mobs@[i - candy_cnt]);
                assert(!listed(rest, candies@[j].pos));
            } else if i >= candy_cnt {
                assert(both[i] == mobs@[i - candy_cnt]);
                assert(both[j] == mobs@[j - candy_cnt]);
            }
        }
        assert forall|i: int| 0 <= i < w@.candies.len() implies interior((#[trigger] w@.candies[i]).pos.x as int, w@.candies[i].pos.y as int,
            grid_width(w@), grid_height(w@)) by {
            assert(both[i] == w@.candies[i]);
        }
        assert forall|i: int| 0 <= i < w@.mobs.len() implies interior((#[trigger] w@.mobs[i]).pos.x as int, w@.mobs[i].pos.y as int,
            grid_width(w@), grid_height(w@)) by {
            assert(both[candy_cnt + i] == w@.mobs[i]);
        }
        assert forall|x: int, y: int| #[trigger] crowd_of(w@.players, w@.mobs, w@.candies, w@.shots, x, y) <= 1 by {
            lemma_count_concat(w@.candies, w@.mobs, x, y);
            lemma_apart_count(both, x, y);
            assert(w@.players =~= Seq::<Entity>::empty());
            assert(w@.shots =~= Seq::<Entity>::empty());
        }
        assert(w.log_lines().len() == 0);
        Ok(w)
    }

    /// A world on a generated `width` by `height` rectangle: walls round an
    /// open interior, the exit on a random free cell, then `candy_cnt`
    /// candies and `mob_cnt` mobs on distinct random free cells.
    pub fn new(width: usize, height: usize, mob_cnt: usize, candy_cnt: usize) -> (r: Result<World, ConfigError>)
        ensures
            r == Err::<World, ConfigError>(ConfigError::TooSmall) <==> width < 3 || height < 3,
            r == Err::<World, ConfigError>(ConfigError::NotEnoughRoom)
                <==> width >= 3 && height >= 3 && mob_cnt + candy_cnt > (width - 2) * (height - 2) - 1,
            r is Err ==> r == Err::<World, ConfigError>(ConfigError::TooSmall)
                || r == Err::<World, ConfigError>(ConfigError::NotEnoughRoom),
            r matches Ok(w) ==> {
                &&& w.wf()
                &&& grid_width(w@) == width
                &&& grid_height(w@) == height
                &&& w@.candies.len() == candy_cnt
                &&& w@.mobs.len() == mob_cnt
                &&& w@.players.len() == 0
                &&& w@.shots.len() == 0
                &&& w@.winner is None
                &&& w@.dead.len() == 0
                &&& apart(w@.candies + w@.mobs)
                &&& forall|i: int| 0 <= i < (w@.candies + w@.mobs).len()
                    ==> free_in(w@.template, (#[trigger] (w@.candies + w@.mobs)[i]).pos.x as int, (w@.candies + w@.mobs)[i].pos.y as int)
                &&& w@.names.len() == 0
                &&& w.log_lines().len() == 0
                &&& interior(w@.exit.x as int, w@.exit.y as int, width as int, height as int)
                &&& w@.template[w@.exit.y as int][w@.exit.x as int].type_ == ObjectType::Exit
                &&& forall|x: int, y: int| 0 <= x < width && 0 <= y < height && !(x == w@.exit.x && y == w@.exit.y)
                    ==> #[trigger] w@.template[y][x] == blank_cell(x, y, width as int, height as int)
            },
    {
        let g = match Grid::new(width, height) {
            Ok(g) => g,
            Err(e) => {
                return Err(e);
            },
        };
        proof { g.lemma_shape(); }
        assert(g.is_free(1, 1));
        let exit = match g.random_empty_point() {
            Some(p) => p,
            None => {
                return Err(ConfigError::NotEnoughRoom);
            },
        };
        let ghost g0 = g@;
        let g = g.place_object(ObjectType::Exit, &exit);
        proof {
            g.lemma_shape();
            assert forall|x: int, y: int| 0 <= x < width && 0 <= y < height && !(x == exit.x && y == exit.y)
                implies #[trigger] g@[y][x] == blank_cell(x, y, width as int, height as int) by {
                assert(g@[y][x] == g0[y][x]);
            }
            g.lemma_free_count_with_exit(width as int, height as int, exit);
        }
        World::populate(g, exit, mob_cnt, candy_cnt)
    }


    /// A world on the layout `template` (see `Grid::parse`), whose exit is
    /// its first `X`, with `candy_cnt` candies and `mob_cnt` mobs on
    /// distinct free cells drawn at random.
    pub fn from_template(template: &str, mob_cnt: usize, candy_cnt: usize) -> (r: Result<World, ConfigError>)
        ensures
            layout_error(template@) matches Some(e) ==> r == Err::<World, ConfigError>(e),
            layout_error(template@) is None && !has_exit(layout_cells(template@))
                ==> r == Err::<World, ConfigError>(ConfigError::NoExit),
            layout_error(template@) is None && has_exit(layout_cells(template@)) ==> (r is Err <==>
                mob_cnt + candy_cnt > free_cells(layout_cells(template@)).len()),
            layout_error(template@) is None && has_exit(layout_cells(template@)) && r is Err
                ==> r == Err::<World, ConfigError>(ConfigError::NotEnoughRoom),
            r matches Ok(w) ==> {
                &&& w.wf()
                &&& w@.template == layout_cells(template@)
                &&& w@.candies.len() == candy_cnt
                &&& w@.mobs.len() == mob_cnt
                &&& w@.players.len() == 0
                &&& w@.shots.len() == 0
                &&& w@.winner is None
                &&& w@.dead.len() == 0
                &&& apart(w@.candies + w@.mobs)
            },
    {
        let g = match Grid::parse(template) {
            Ok(g) => g,
            Err(e) => {
                return Err(e);
            },
        };
        proof { g.lemma_shape(); }
        let exit = match g.find_exit() {
            Some(p) => p,
            None => {
                assert(!has_exit(g@)) by {
                    if has_exit(g@) {
                        let (x, y) = choose|x: int, y: int| 0 <= y < g@.len() && 0 <= x < g@[y].len()
                            && (#[trigger] g@[y][x]).type_ == ObjectType::Exit;
                        assert(g.in_bounds(x, y));
                    }
                }
                return Err(ConfigError::NoExit);
            },
        };
        assert(has_exit(g@)) by {
            assert(g@[exit.y as int][exit.x as int].type_ == ObjectType::Exit);
        }
        World::populate(g, exit, mob_cnt, candy_cnt)
    }

    /// The template with every entity laid over it.
    pub fn fill_map(&self) -> (g: Grid)
        requires
            self.wf(),
        ensures
            g.wf(),
            g@.len() == grid_height(self@),
            g@[0].len() == grid_width(self@),
            forall|x: int, y: int| 0 <= x < grid_width(self@) && 0 <= y < grid_height(self@)
                ==> #[trigger] g@[y][x] == occupant(self@, x, y),
    {
        let ghost v = self@;
        let w = self.map_template.width();
        let h = self.map_template.height();
        let mut g = self.map_template.copy();
        let mut y: usize = 1;
        while y + 1 < h
            invariant
                self.wf(),
                v == self@,
                w == grid_width(v),
                h == grid_height(v),
                g.wf(),
                g@.len() == h,
                g@[0].len() == w,
                1 <= y <= h - 1,
                forall|xx: int, yy: int| 0 <= xx < w && 0 <= yy < h ==> #[trigger] g@[yy][xx] == (
                    if interior(xx, yy, w as int, h as int) && yy < y { occupant(v, xx, yy) } else { v.template[yy][xx] }),
            decreases h - y,
        {
            let mut x: usize = 1;
            while x + 1 < w
                invariant
                    self.wf(),
                    v == self@,
                    w == grid_width(v),
                    h == grid_height(v),
                    g.wf(),
                    g@.len() == h,
                    g@[0].len() == w,
                    1 <= y < h - 1,
                    1 <= x <= w - 1,
                    forall|xx: int, yy: int| 0 <= xx < w && 0 <= yy < h ==> #[trigger] g@[yy][xx] == (
                        if interior(xx, yy, w as int, h as int) && (yy < y || (yy == y && xx < x)) { occupant(v, xx, yy) } else { v.template[yy][xx] }),
                decreases w - x,
            {
                let o = self.occupant_at(x, y);
                proof {
                    lemma_occupant_inside(v, x as int, y as int);
                    g.lemma_shape();
                }
                let ghost g0 = g@;
                g = g.place_object_with_id(o.id, o.type_, &Point::new(x, y));
                assert forall|xx: int, yy: int| 0 <= xx < w && 0 <= yy < h implies #[trigger] g@[yy][xx] == (
                    if interior(xx, yy, w as int, h as int) && (yy < y || (yy == y && xx < x + 1)) { occupant(v, xx, yy) } else { v.template[yy][xx] }) by {
                    if yy != y || xx != x {
                        assert(g@[yy][xx] == g0[yy][xx]);
                    }
                }
                x = x + 1;
            }
            y = y + 1;
        }
        assert forall|x: int, yy: int| 0 <= x < w && 0 <= yy < h implies #[trigger] g@[yy][x] == occupant(v, x, yy) by {
            if !interior(x, yy, w as int, h as int) {
                lemma_ring_occupant(v, x, yy);
            }
        }
        g
    }


    /// The world drawn as text: the template with every entity on it.
    pub fn map_string(&self) -> (text: String)
        requires
            self.wf(),
        ensures
            text@ == grid_text(Seq::new(grid_height(self@) as nat, |y: int|
                Seq::new(grid_width(self@) as nat, |x: int| occupant(self@, x, y)))),
    {
        let g = self.fill_map();
        proof {
            g.lemma_shape();
            let rows = Seq::new(grid_height(self@) as nat, |y: int| Seq::new(grid_width(self@) as nat, |x: int| occupant(self@, x, y)));
            assert forall|y: int| 0 <= y < rows.len() implies #[trigger] g@[y] =~= rows[y] by {}
            assert(g@ =~= rows);
        }
        g.format()
    }

    /// A copy of the maze template, without entities.
    pub fn get_map_template(&self) -> (g: Grid)
        requires
            self.wf(),
        ensures
            g.wf(),
            g@ == self@.template,
    {
        self.map_template.copy()
    }

    pub fn width(&self) -> (w: usize)
        requires
            self.wf(),
        ensures
            w == grid_width(self@),
    {
        self.map_template.width()
    }

    pub fn height(&self) -> (h: usize)
        requires
            self.wf(),
        ensures
            h == grid_height(self@),
    {
        self.map_template.height()
    }

    /// Where the exit is.
    pub fn exit(&self) -> (p: Point)
        ensures
            p == self@.exit,
    {
        self.exit
    }

    /// The winner, once there is one.
    pub fn winner(&self) -> (w: Option<u64>)
        ensures
            w == self@.winner,
    {
        self.winner
    }

    /// How many candies are left to collect.
    pub fn candies_left(&self) -> (n: usize)
        ensures
            n == self@.candies.len(),
    {
        self.candies.len()
    }

    /// Whether player `player_id` may still act: nobody has won and it is not dead.
    pub fn can_play(&self, player_id: u64) -> (b: bool)
        ensures
            b == (self@.winner is None && !self@.dead.contains(player_id)),
    {
        match self.refusal(player_id) {
            Some(ActionError::Finished) | Some(ActionError::Dead) => false,
            _ => true,
        }
    }

    /// Player `player_id`, called `player_name`, joins at `(x, y)`, facing up.
    pub fn add_player(&mut self, player_name: &str, player_id: u64, x: usize, y: usize) -> (r: Result<u64, ActionError>)
        requires
            old(self).wf(),
        ensures
            final(self).wf(),
            join_refusal(old(self)@, player_id, x as int, y as int) matches Some(e) ==> {
                &&& r == Err::<u64, ActionError>(e)
                &&& final(self)@ == old(self)@
                &&& final(self).log_lines() == old(self).log_lines()
            },
            join_refusal(old(self)@, player_id, x as int, y as int) is None ==> {
                &&& r == Ok::<u64, ActionError>(player_id)
                &&& final(self)@ == join_outcome(old(self)@, player_name@, player_id, x as int, y as int)
                &&& logs_extended(old(self).log_lines(), final(self).log_lines(), seq![entered_msg(player_name@)])
            },
    {
        let ghost v = self@;
        if self.winner.is_some() {
            return Err(ActionError::Finished);
        }
        let w = self.map_template.width();
        let h = self.map_template.height();
        if x >= w || y >= h {
            return Err(ActionError::NoRoom);
        }
        let o = self.occupant_at(x, y);
        if o.type_ != ObjectType::Empty {
            return Err(ActionError::NoRoom);
        }
        proof { lemma_occupant_inside(v, x as int, y as int); }
        match self.refusal(player_id) {
            Some(ActionError::Dead) => {
                return Err(ActionError::IdTaken);
            },
            Some(_) => {},
            None => {
                return Err(ActionError::IdTaken);
            },
        }
        if self.find_name(player_id).is_some() {
            return Err(ActionError::IdTaken);
        }
        proof {
            lemma_index_of(v.players, player_id);
            lemma_name_index(v.names, player_id);
        }
        self.players.push(Entity { id: player_id, pos: Point::new(x, y) });
        proof {
            lemma_vacant(v, x as int, y as int);
            assert forall|xx: int, yy: int| #[trigger] crowd_of(self.players@, self.mobs@, self.candies@, self.shots@, xx, yy) <= 1 by {
                lemma_count_push(v.players, Entity { id: player_id, pos: Point { x, y, dir: Direction::Up } }, xx, yy);
                assert(crowd(v, xx, yy) <= 1);
            }
        }
        self.player_names.push((player_id, String::from_str(player_name)));
        assert(self@.names =~= v.names.push((player_id, player_name@)));
        assert forall|i: int, j: int| 0 <= i < j < self@.names.len() implies (#[trigger] self@.names[i]).0 != (#[trigger] self@.names[j]).0 by {
            if j == v.names.len() {
                assert(v.names[i].0 != player_id);
            }
        }
        let mut m = String::from_str("Player ");
        m.append(player_name);
        m.append(" entered world");
        self.log(m);
        assert(self@ == join_outcome(v, player_name@, player_id, x as int, y as int));
        Ok(player_id)
    }

    /// A new player called `player_name` joins at a random free cell, with a
    /// random id, which is returned.
    pub fn spawn_player(&mut self, player_name: &str) -> (r: Result<u64, ActionError>)
        requires
            old(self).wf(),
        ensures
            final(self).wf(),
            r is Err ==> final(self)@ == old(self)@ && final(self).log_lines() == old(self).log_lines(),
            r == Err::<u64, ActionError>(ActionError::Finished) <==> old(self)@.winner is Some,
            old(self)@.winner is None ==> (r == Err::<u64, ActionError>(ActionError::NoRoom)
                <==> forall|x: int, y: int| !#[trigger] free_cell(old(self)@, x, y)),
            r matches Ok(id) ==> exists|x: int, y: int| {
                &&& #[trigger] free_cell(old(self)@, x, y)
                &&& final(self)@ == join_outcome(old(self)@, player_name@, id, x, y)
                &&& logs_extended(old(self).log_lines(), final(self).log_lines(), seq![entered_msg(player_name@)])
            },
            r == Err::<u64, ActionError>(ActionError::IdTaken) ==> exists|id: u64|
                #[trigger] index_of(old(self)@.players, id) >= 0 || old(self)@.dead.contains(id)
                    || name_index(old(self)@.names, id) >= 0,
            r == Err::<u64, ActionError>(ActionError::IdTaken)
                ==> old(self)@.players.len() + old(self)@.dead.len() + old(self)@.names.len() > 0,
            old(self)@.winner is None && old(self)@.players.len() == 0 && old(self)@.dead.len() == 0
                && old(self)@.names.len() == 0
                && (exists|x: int, y: int| #[trigger] free_cell(old(self)@, x, y)) ==> r is Ok,
    {
        let ghost v = self@;
        if self.winner.is_some() {
            return Err(ActionError::Finished);
        }
        let g = self.fill_map();
        assert forall|x: int, y: int| #[trigger] free_cell(v, x, y) <==> g.is_free(x, y) by {
            if 0 <= x < grid_width(v) && 0 <= y < grid_height(v) {
                lemma_occupant_inside(v, x, y);
            }
        }
        match g.random_empty_point() {
            None => Err(ActionError::NoRoom),
            Some(p) => {
                let id = random_id();
                proof {
                    lemma_index_of(v.players, id);
                    lemma_name_index(v.names, id);
                }
                let r = self.add_player(player_name, id, p.x, p.y);
                assert(free_cell(v, p.x as int, p.y as int));
                r
            },
        }
    }

    /// Player `player_id` leaves the game: it is removed from the live
    /// players, the dead and the names, and its departure logged. Leaving
    /// twice, or with an unknown id, changes nothing.
    pub fn erase_player(&mut self, player_id: u64)
        requires
            old(self).wf(),
        ensures
            final(self).wf(),
            !known(old(self)@, player_id) ==> final(self)@ == old(self)@ && final(self).log_lines() == old(self).log_lines(),
            known(old(self)@, player_id) ==> {
                &&& final(self)@ == leave_outcome(old(self)@, player_id)
                &&& logs_extended(old(self).log_lines(), final(self).log_lines(),
                    seq![left_msg(name_of(old(self)@.names, player_id))])
            },
            forall|i: int| 0 <= i < final(self)@.players.len() ==> (#[trigger] final(self)@.players[i]).id != player_id,
            forall|i: int| 0 <= i < final(self)@.names.len() ==> (#[trigger] final(self)@.names[i]).0 != player_id,
            !final(self)@.dead.contains(player_id),
    {
        let ghost v = self@;
        let w = self.map_template.width();
        let h = self.map_template.height();
        let in_players = find_id(&self.players, player_id).is_some();
        let mut in_dead = false;
        let mut dead: Vec<u64> = Vec::new();
        let mut i: usize = 0;
        while i < self.dead_players.len()
            invariant
                i <= self.dead_players@.len(),
                dead@ == self.dead_players@.subrange(0, i as int).filter(not_id(player_id)),
                in_dead <==> exists|j: int| 0 <= j < i && self.dead_players@[j] == player_id,
                forall|j: int| 0 <= j < dead@.len() ==> self.dead_players@.contains(#[trigger] dead@[j]),
            decreases self.dead_players@.len() - i,
        {
            let d = self.dead_players[i];
            proof {
                assert(self.dead_players@.subrange(0, i + 1) =~= self.dead_players@.subrange(0, i as int).push(d));
                self.dead_players@.subrange(0, i as int).lemma_filter_push(d, not_id(player_id));
            }
            assert(self.dead_players@[i as int] == d);
            if d != player_id {
                dead.push(d);
            } else {
                in_dead = true;
            }
            i = i + 1;
        }
        assert(in_dead == v.dead.contains(player_id));
        assert(self.dead_players@.subrange(0, i as int) =~= self.dead_players@);
        let name_at = self.find_name(player_id);
        if !in_players && !in_dead && name_at.is_none() {
            proof {
                lemma_index_of(v.players, player_id);
                lemma_name_index(v.names, player_id);
            }
            return;
        }
        let name = self.name_of(player_id);
        proof {
            lemma_remove_id(self.players@, player_id, w as int, h as int);
            lemma_remove_unique(v, player_id);
        }
        remove_by_id(&mut self.players, player_id);
        proof {
            lemma_index_of(v.players, player_id);
            if index_of(v.players, player_id) >= 0 {
                assert forall|x: int, y: int| #[trigger] crowd_of(self.players@, v.mobs, v.candies, v.shots, x, y) <= 1 by {
                    lemma_count_remove(v.players, index_of(v.players, player_id), x, y);
                    assert(crowd(v, x, y) <= 1);
                }
            }
        }
        self.dead_players = dead;
        if let Some(j) = name_at {
            self.player_names.remove(j);
        }
        assert(self@.names =~= leave_outcome(v, player_id).names);
        proof {
            lemma_name_index(v.names, player_id);
            v.dead.filter_lemma(not_id(player_id));
            if name_index(v.names, player_id) >= 0 {
                let k = name_index(v.names, player_id);
                assert forall|i: int| 0 <= i < self@.names.len() implies (#[trigger] self@.names[i]).0 != player_id by {
                    let a = if i < k { i } else { i + 1 };
                    assert(self@.names[i] == v.names[a]);
                    assert(v.names[a].0 != v.names[k].0);
                }
            }
        }
        let mut m = String::from_str("Player ");
        m.append(name.as_str());
        m.append(" left the game");
        self.log(m);
        assert forall|a: int, b: int| 0 <= a < self@.players.len() && 0 <= b < self@.dead.len()
            implies (#[trigger] self@.players[a]).id != #[trigger] self@.dead[b] by {
            assert(v.dead.contains(self@.dead[b]));
        }
        assert(self@ == leave_outcome(v, player_id));
    }

    /// The log lines, copied.
    pub fn get_logs(&self) -> (logs: Vec<String>)
        ensures
            logs@.len() == self.log_lines().len(),
            forall|i: int| 0 <= i < logs@.len() ==> #[trigger] logs@[i]@ == self.log_lines()[i],
    {
        let mut logs: Vec<String> = Vec::new();
        let mut i: usize = 0;
        while i < self.logs.len()
            invariant
                i <= self.logs@.len(),
                logs@.len() == i,
                forall|j: int| 0 <= j < i ==> #[trigger] logs@[j]@ == self.logs@[j]@,
            decreases self.logs@.len() - i,
        {
            logs.push(self.logs[i].clone());
            i = i + 1;
        }
        logs
    }

    /// Every entity as a placed object, in the order of `object_list`.
    fn object_positions(&self) -> (objs: Vec<(ObjectType, Point)>)
        ensures
            objs@ == object_list(self@),
    {
        let mut objs: Vec<(ObjectType, Point)> = Vec::new();
        let mut i: usize = 0;
        while i < self.players.len()
            invariant
                i <= self.players@.len(),
                objs@ == self.players@.subrange(0, i as int).map_values(|e: Entity| (ObjectType::Player(e.pos.dir), e.pos)),
            decreases self.players@.len() - i,
        {
            let e = self.players[i];
            objs.push((ObjectType::Player(e.pos.dir), e.pos));
            i = i + 1;
            assert(objs@ =~= self.players@.subrange(0, i as int).map_values(|e: Entity| (ObjectType::Player(e.pos.dir), e.pos)));
        }
        let ghost a = objs@;
        i = 0;
        while i < self.mobs.len()
            invariant
                i <= self.mobs@.len(),
                objs@ == a + self.mobs@.subrange(0, i as int).map_values(|e: Entity| (ObjectType::Mob, e.pos)),
            decreases self.mobs@.len() - i,
        {
            let e = self.mobs[i];
            objs.push((ObjectType::Mob, e.pos));
            i = i + 1;
            assert(objs@ =~= a + self.mobs@.subrange(0, i as int).map_values(|e: Entity| (ObjectType::Mob, e.pos)));
        }
        let ghost b = objs@;
        i = 0;
        while i < self.candies.len()
            invariant
                i <= self.candies@.len(),
                objs@ == b + self.candies@.subrange(0, i as int).map_values(|e: Entity| (ObjectType::Candy, e.pos)),
            decreases self.candies@.len() - i,
        {
            let e = self.candies[i];
            objs.push((ObjectType::Candy, e.pos));
            i = i + 1;
            assert(objs@ =~= b + self.candies@.subrange(0, i as int).map_values(|e: Entity| (ObjectType::Candy, e.pos)));
        }
        let ghost c = objs@;
        i = 0;
        while i < self.shots.len()
            invariant
                i <= self.shots@.len(),
                objs@ == c + self.shots@.subrange(0, i as int).map_values(|e: Entity| (ObjectType::Shot(e.pos.dir), e.pos)),
            decreases self.shots@.len() - i,
        {
            let e = self.shots[i];
            objs.push((ObjectType::Shot(e.pos.dir), e.pos));
            i = i + 1;
            assert(objs@ =~= c + self.shots@.subrange(0, i as int).map_values(|e: Entity| (ObjectType::Shot(e.pos.dir), e.pos)));
        }
        assert(self.players@.subrange(0, self.players@.len() as int) =~= self.players@);
        assert(self.mobs@.subrange(0, self.mobs@.len() as int) =~= self.mobs@);
        assert(self.candies@.subrange(0, self.candies@.len() as int) =~= self.candies@);
        assert(self.shots@.subrange(0, self.shots@.len() as int) =~= self.shots@);
        objs
    }

    /// Every entity with its position and facing, the winner, the dead, and the log.
    pub fn get_state(&self) -> (st: WorldState)
        ensures
            st.objects@ == object_list(self@),
            st.winner == self@.winner,
            st.dead_players@ == self@.dead,
            st.logs@.len() == self.log_lines().len(),
            forall|i: int| 0 <= i < st.logs@.len() ==> #[trigger] st.logs@[i]@ == self.log_lines()[i],
    {
        WorldState {
            objects: self.object_positions(),
            winner: self.winner,
            dead_players: self.dead_players.clone(),
            logs: self.get_logs(),
        }
    }


    /// What player `player_id` sees: every entity, whether the game is
    /// over, whether it won, whether it is dead, and the log.
    pub fn snapshot(&self, player_id: u64) -> (st: GetStateResponse)
        ensures
            st.objects@ == object_list(self@),
            st.is_finished == self@.winner is Some,
            st.player_winner == (self@.winner == Some(player_id)),
            st.player_dead == self@.dead.contains(player_id),
            st.logs@.len() == self.log_lines().len(),
            forall|i: int| 0 <= i < st.logs@.len() ==> #[trigger] st.logs@[i]@ == self.log_lines()[i],
    {
        let state = self.get_state();
        let mut dead = false;
        let mut i: usize = 0;
        while i < state.dead_players.len()
            invariant
                i <= state.dead_players@.len(),
                state.dead_players@ == self@.dead,
                dead == exists|j: int| 0 <= j < i && self@.dead[j] == player_id,
            decreases state.dead_players@.len() - i,
        {
            if state.dead_players[i] == player_id {
                dead = true;
            }
            i = i + 1;
        }
        let winner = match state.winner {
            Some(w) => w == player_id,
            None => false,
        };
        GetStateResponse {
            objects: state.objects,
            is_finished: state.winner.is_some(),
            player_winner: winner,
            player_dead: dead,
            logs: state.logs,
        }
    }

    /// Carries out `action` for player `player_id`: a move or a shot.
    pub fn apply_action(&mut self, player_id: u64, action: PlayerAction) -> (r: Result<(), ActionError>)
        requires
            old(self).wf(),
        ensures
            final(self).wf(),
            action_refusal(old(self)@, player_id) matches Some(e) ==> {
                &&& r == Err::<(), ActionError>(e)
                &&& final(self)@ == old(self)@
                &&& final(self).log_lines() == old(self).log_lines()
            },
            action_refusal(old(self)@, player_id) is None ==> r is Ok,
            action matches PlayerAction::Move(dir) ==> (action_refusal(old(self)@, player_id) is None ==> {
                &&& final(self)@ == move_outcome(old(self)@, player_id, dir).0
                &&& logs_extended(old(self).log_lines(), final(self).log_lines(), move_outcome(old(self)@, player_id, dir).1)
            }),
            action_refusal(old(self)@, player_id) is None && action is Shoot ==> exists|shot_id: u64| {
                &&& final(self)@ == #[trigger] shoot_outcome(old(self)@, player_id, shot_id).0
                &&& logs_extended(old(self).log_lines(), final(self).log_lines(), shoot_outcome(old(self)@, player_id, shot_id).1)
            },
    {
        match action {
            PlayerAction::Shoot => self.player_shoot(player_id),
            PlayerAction::Move(dir) => self.move_player(player_id, dir),
        }
    }

    /// Player `player_id` shoots at the cell ahead of it: a mob there dies,
    /// a player there dies, an empty cell receives a new shot `shot_id`
    /// flying the shooter's way; anything else absorbs the shot.
    pub fn shoot_with_id(&mut self, player_id: u64, shot_id: u64) -> (r: Result<(), ActionError>)
        requires
            old(self).wf(),
        ensures
            final(self).wf(),
            action_refusal(old(self)@, player_id) matches Some(e) ==> {
                &&& r == Err::<(), ActionError>(e)
                &&& final(self)@ == old(self)@
                &&& final(self).log_lines() == old(self).log_lines()
            },
            action_refusal(old(self)@, player_id) is None ==> {
                &&& r is Ok
                &&& final(self)@ == shoot_outcome(old(self)@, player_id, shot_id).0
                &&& logs_extended(old(self).log_lines(), final(self).log_lines(), shoot_outcome(old(self)@, player_id, shot_id).1)
            },
    {
        if let Some(e) = self.refusal(player_id) {
            return Err(e);
        }
        let ghost v = self@;
        proof { lemma_index_of(v.players, player_id); }
        let i = find_id(&self.players, player_id).unwrap();
        let p = self.players[i].pos;
        assert(v.players[i as int].pos == p);
        let w = self.map_template.width();
        let h = self.map_template.height();
        let t = p.step();
        let occ = self.occupant_at(t.x, t.y);
        proof { lemma_occupant_inside(v, t.x as int, t.y as int); }
        let name = self.name_of(player_id);
        match occ.type_ {
            ObjectType::Empty => {
                self.shots.push(Entity { id: shot_id, pos: t });
                proof {
                    lemma_vacant(v, t.x as int, t.y as int);
                    assert forall|x: int, y: int| #[trigger] crowd_of(self.players@, self.mobs@, self.candies@, self.shots@, x, y) <= 1 by {
                        lemma_count_push(v.shots, Entity { id: shot_id, pos: t }, x, y);
                        assert(crowd(v, x, y) <= 1);
                    }
                }
                proof { lemma_empty_log(old(self).log_lines()); }
            },
            ObjectType::Mob => {
                proof { lemma_last_at_range(v.mobs, t.x as int, t.y as int); }
                let k = find_at(&self.mobs, t.x, t.y).unwrap();
                proof { lemma_remove_inside(self.mobs@, k as int, w as int, h as int); }
                self.mobs.remove(k);
                proof {
                    assert forall|x: int, y: int| #[trigger] crowd_of(self.players@, self.mobs@, self.candies@, self.shots@, x, y) <= 1 by {
                        lemma_count_remove(v.mobs, k as int, x, y);
                        assert(crowd(v, x, y) <= 1);
                    }
                }
                let mut m = String::from_str("Mob killed by ");
                m.append(name.as_str());
                self.log(m);
            },
            ObjectType::Player(_) => {
                let victim = self.name_of(occ.id);
                proof { lemma_last_at_range(v.players, t.x as int, t.y as int); }
                let k = find_at(&self.players, t.x, t.y).unwrap();
                proof {
                    lemma_remove_inside(self.players@, k as int, w as int, h as int);
                    lemma_remove_unique_at(v, k as int);
                }
                self.players.remove(k);
                proof {
                    assert forall|x: int, y: int| #[trigger] crowd_of(self.players@, self.mobs@, self.candies@, self.shots@, x, y) <= 1 by {
                        lemma_count_remove(v.players, k as int, x, y);
                        assert(crowd(v, x, y) <= 1);
                    }
                }
                self.dead_players.push(occ.id);
                let mut m = name;
                m.append(" killed ");
                m.append(victim.as_str());
                self.log(m);
            },
            _ => {
                proof { lemma_empty_log(old(self).log_lines()); }
            },
        }
        assert(self@ == shoot_outcome(v, player_id, shot_id).0);
        Ok(())
    }

    /// Player `player_id` shoots; a new shot gets a random id.
    pub fn player_shoot(&mut self, player_id: u64) -> (r: Result<(), ActionError>)
        requires
            old(self).wf(),
        ensures
            final(self).wf(),
            action_refusal(old(self)@, player_id) matches Some(e) ==> {
                &&& r == Err::<(), ActionError>(e)
                &&& final(self)@ == old(self)@
                &&& final(self).log_lines() == old(self).log_lines()
            },
            action_refusal(old(self)@, player_id) is None ==> exists|shot_id: u64| {
                &&& r is Ok
                &&& final(self)@ == #[trigger] shoot_outcome(old(self)@, player_id, shot_id).0
                &&& logs_extended(old(self).log_lines(), final(self).log_lines(), shoot_outcome(old(self)@, player_id, shot_id).1)
            },
    {
        let shot_id = random_id();
        self.shoot_with_id(player_id, shot_id)
    }

    /// Mob number `k` tries one step in direction `dir`: onto an empty cell
    /// it moves; onto a player it moves too, and the player dies; anything
    /// else keeps it where it is.
    pub fn move_mob(&mut self, k: usize, dir: Direction)
        requires
            old(self).wf(),
            k < old(self)@.mobs.len(),
        ensures
            final(self).wf(),
            final(self)@ == mob_outcome(old(self)@, k as int, dir).0,
            logs_extended(old(self).log_lines(), final(self).log_lines(), mob_outcome(old(self)@, k as int, dir).1),
    {
        let ghost v = self@;
        let m = self.mobs[k];
        assert(v.mobs[k as int] == m);
        let w = self.map_template.width();
        let h = self.map_template.height();
        let t = m.pos.turn_and_step(dir);
        let occ = self.occupant_at(t.x, t.y);
        proof { lemma_occupant_inside(v, t.x as int, t.y as int); }
        let moved = Entity { id: m.id, pos: Point::new(t.x, t.y) };
        match occ.type_ {
            ObjectType::Empty => {
                self.mobs.set(k, moved);
                proof {
                    lemma_vacant(v, t.x as int, t.y as int);
                    assert forall|x: int, y: int| #[trigger] crowd_of(self.players@, self.mobs@, self.candies@, self.shots@, x, y) <= 1 by {
                        lemma_count_update(v.mobs, k as int, moved, x, y);
                        assert(crowd(v, x, y) <= 1);
                    }
                }
                proof { lemma_empty_log(old(self).log_lines()); }
            },
            ObjectType::Player(_) => {
                let victim = self.name_of(occ.id);
                proof { lemma_last_at_range(v.players, t.x as int, t.y as int); }
                let vi = find_at(&self.players, t.x, t.y).unwrap();
                proof {
                    lemma_remove_inside(self.players@, vi as int, w as int, h as int);
                    lemma_remove_unique_at(v, vi as int);
                }
                self.players.remove(vi);
                self.dead_players.push(occ.id);
                self.mobs.set(k, moved);
                proof {
                    lemma_last_at_range(v.players, t.x as int, t.y as int);
                    assert forall|x: int, y: int| #[trigger] crowd_of(self.players@, self.mobs@, self.candies@, self.shots@, x, y) <= 1 by {
                        lemma_count_remove(v.players, vi as int, x, y);
                        lemma_count_update(v.mobs, k as int, moved, x, y);
                        assert(crowd(v, x, y) <= 1);
                    }
                }
                let mut msg = victim;
                msg.append(" killed by mob");
                self.log(msg);
            },
            _ => {
                proof { lemma_empty_log(old(self).log_lines()); }
            },
        }
        assert(self@ == mob_outcome(v, k as int, dir).0);
    }

    /// One mob, drawn at random, tries a step in a random direction.
    pub fn move_random_mob(&mut self)
        requires
            old(self).wf(),
        ensures
            final(self).wf(),
            old(self)@.mobs.len() == 0 ==> final(self)@ == old(self)@ && final(self).log_lines() == old(self).log_lines(),
            old(self)@.mobs.len() > 0 ==> exists|k: int, dir: Direction| 0 <= k < old(self)@.mobs.len() && {
                &&& final(self)@ == #[trigger] mob_outcome(old(self)@, k, dir).0
                &&& logs_extended(old(self).log_lines(), final(self).log_lines(), mob_outcome(old(self)@, k, dir).1)
            },
    {
        if self.mobs.len() == 0 {
            return;
        }
        let k = random_below(0, self.mobs.len());
        let dir = Direction::from_index(random_below(0, 4));
        self.move_mob(k, dir);
    }


    /// One tick of the world: a random mob tries a step, then every shot flies.
    pub fn move_world(&mut self)
        requires
            old(self).wf(),
        ensures
            final(self).wf(),
            old(self)@.mobs.len() == 0 ==> final(self)@ == shots_from(old(self)@, 0).0,
            old(self)@.mobs.len() > 0 ==> exists|k: int, dir: Direction| 0 <= k < old(self)@.mobs.len()
                && final(self)@ == shots_from(#[trigger] mob_outcome(old(self)@, k, dir).0, 0).0,
    {
        self.move_random_mob();
        self.move_shots();
    }

    /// Every shot flies one cell, in order: on into an empty cell; a mob or
    /// a player it hits dies; the shot itself is gone after any hit.
    pub fn move_shots(&mut self)
        requires
            old(self).wf(),
        ensures
            final(self).wf(),
            final(self)@ == shots_from(old(self)@, 0).0,
            logs_extended(old(self).log_lines(), final(self).log_lines(), shots_from(old(self)@, 0).1),
    {
        let ghost goal = shots_from(self@, 0);
        let mut msgs: Vec<String> = Vec::new();
        let mut j: usize = 0;
        while j < self.shots.len()
            invariant
                self.wf(),
                j <= self@.shots.len(),
                shots_from(self@, j as int).0 == goal.0,
                Seq::new(msgs@.len(), |i: int| msgs@[i]@) + shots_from(self@, j as int).1 == goal.1,
                self.log_lines() == old(self).log_lines(),
            decreases self@.shots.len() - j,
        {
            let ghost v = self@;
            let ghost before = Seq::new(msgs@.len(), |i: int| msgs@[i]@);
            let s = self.shots[j];
            assert(v.shots[j as int] == s);
            let w = self.map_template.width();
            let h = self.map_template.height();
            let t = s.pos.step();
            let occ = self.occupant_at(t.x, t.y);
            proof {
                lemma_occupant_inside(v, t.x as int, t.y as int);
                lemma_remove_inside(v.shots, j as int, w as int, h as int);
            }
            match occ.type_ {
                ObjectType::Empty => {
                    self.shots.set(j, Entity { id: s.id, pos: t });
                    proof {
                        lemma_vacant(v, t.x as int, t.y as int);
                        assert forall|x: int, y: int| #[trigger] crowd_of(self.players@, self.mobs@, self.candies@, self.shots@, x, y) <= 1 by {
                            lemma_count_update(v.shots, j as int, Entity { id: s.id, pos: t }, x, y);
                            assert(crowd(v, x, y) <= 1);
                        }
                    }
                    j = j + 1;
                },
                ObjectType::Mob => {
                    proof { lemma_last_at_range(v.mobs, t.x as int, t.y as int); }
                    let k = find_at(&self.mobs, t.x, t.y).unwrap();
                    proof { lemma_remove_inside(self.mobs@, k as int, w as int, h as int); }
                    self.mobs.remove(k);
                    self.shots.remove(j);
                    proof {
                        assert forall|x: int, y: int| #[trigger] crowd_of(self.players@, self.mobs@, self.candies@, self.shots@, x, y) <= 1 by {
                            lemma_count_remove(v.mobs, k as int, x, y);
                            lemma_count_remove(v.shots, j as int, x, y);
                            assert(crowd(v, x, y) <= 1);
                        }
                    }
                    msgs.push(String::from_str("Mob killed by stray shot"));
                },
                ObjectType::Player(_) => {
                    let mut m = self.name_of(occ.id);
                    m.append(" killed by stray shot");
                    proof { lemma_last_at_range(v.players, t.x as int, t.y as int); }
                    let k = find_at(&self.players, t.x, t.y).unwrap();
                    proof {
                        lemma_remove_inside(self.players@, k as int, w as int, h as int);
                        lemma_remove_unique_at(v, k as int);
                    }
                    self.players.remove(k);
                    self.dead_players.push(occ.id);
                    self.shots.remove(j);
                    proof {
                        assert forall|x: int, y: int| #[trigger] crowd_of(self.players@, self.mobs@, self.candies@, self.shots@, x, y) <= 1 by {
                            lemma_count_remove(v.players, k as int, x, y);
                            lemma_count_remove(v.shots, j as int, x, y);
                            assert(crowd(v, x, y) <= 1);
                        }
                    }
                    msgs.push(m);
                },
                _ => {
                    self.shots.remove(j);
                    proof {
                        assert forall|x: int, y: int| #[trigger] crowd_of(self.players@, self.mobs@, self.candies@, self.shots@, x, y) <= 1 by {
                            lemma_count_remove(v.shots, j as int, x, y);
                            assert(crowd(v, x, y) <= 1);
                        }
                    }
                },
            }
            assert(self@ == shot_outcome(v, j as int).0 || self@ == shot_outcome(v, (j - 1) as int).0);
            assert(Seq::new(msgs@.len(), |i: int| msgs@[i]@) =~= before + shot_outcome(v, if occ.type_ == ObjectType::Empty { j - 1 } else { j as int }).2);
        }
        proof {
            lemma_empty_log(old(self).log_lines());
            assert(goal.1.subrange(0, 0) =~= Seq::<Seq<char>>::empty());
        }
        let mut i: usize = 0;
        while i < msgs.len()
            invariant
                self.wf(),
                self@ == goal.0,
                i <= msgs@.len(),
                Seq::new(msgs@.len(), |k: int| msgs@[k]@) == goal.1,
                logs_extended(old(self).log_lines(), self.log_lines(), goal.1.subrange(0, i as int)),
            decreases msgs@.len() - i,
        {
            let ghost mid = self.log_lines();
            let m = msgs[i].clone();
            self.log(m);
            proof { lemma_logs_step(old(self).log_lines(), mid, self.log_lines(), goal.1, i as int); }
            i = i + 1;
        }
        assert(goal.1.subrange(0, i as int) =~= goal.1);
    }
}


/// On the outer ring no entity stands: the template shows through.
proof fn lemma_ring_occupant(v: WorldView, x: int, y: int)
    requires
        world_wf(v),
        0 <= x < grid_width(v),
        0 <= y < grid_height(v),
        !interior(x, y, grid_width(v), grid_height(v)),
    ensures
        occupant(v, x, y) == v.template[y][x],
{
    lemma_last_at_range(v.shots, x, y);
    lemma_last_at_range(v.candies, x, y);
    lemma_last_at_range(v.mobs, x, y);
    lemma_last_at_range(v.players, x, y);
}

/// With distinct player ids, removing the player at index `k` leaves no
/// player of its id, and the rest keep distinct ids and stay clear of the dead.
proof fn lemma_remove_unique_at(v: WorldView, k: int)
    requires
        world_wf(v),
        0 <= k < v.players.len(),
    ensures
        forall|i: int| 0 <= i < v.players.remove(k).len() ==> (#[trigger] v.players.remove(k)[i]).id != v.players[k].id,
        forall|i: int, j: int| 0 <= i < j < v.players.remove(k).len()
            ==> (#[trigger] v.players.remove(k)[i]).id != (#[trigger] v.players.remove(k)[j]).id,
        forall|i: int, j: int| 0 <= i < v.players.remove(k).len() && 0 <= j < v.dead.len()
            ==> (#[trigger] v.players.remove(k)[i]).id != #[trigger] v.dead[j],
{
    let s = v.players;
    let r = s.remove(k);
    assert forall|i: int| 0 <= i < r.len() implies #[trigger] r[i] == s[if i < k { i } else { i + 1 }] by {}
    assert forall|i: int| 0 <= i < r.len() implies (#[trigger] r[i]).id != s[k].id by {
        let a = if i < k { i } else { i + 1 };
        assert(s[a].id != s[k].id);
    }
    assert forall|i: int, j: int| 0 <= i < j < r.len() implies (#[trigger] r[i]).id != (#[trigger] r[j]).id by {
        let a = if i < k { i } else { i + 1 };
        let b = if j < k { j } else { j + 1 };
        assert(s[a].id != s[b].id);
    }
    assert forall|i: int, j: int| 0 <= i < r.len() && 0 <= j < v.dead.len() implies (#[trigger] r[i]).id != #[trigger] v.dead[j] by {
        let a = if i < k { i } else { i + 1 };
        assert(s[a].id != v.dead[j]);
    }
}

/// With distinct player ids, removing a player leaves no player of that id,
/// and the rest keep distinct ids and stay clear of the dead.
proof fn lemma_remove_unique(v: WorldView, id: u64)
    requires
        world_wf(v),
    ensures
        forall|i: int| 0 <= i < remove_id(v.players, id).len() ==> (#[trigger] remove_id(v.players, id)[i]).id != id,
        forall|i: int, j: int| 0 <= i < j < remove_id(v.players, id).len()
            ==> (#[trigger] remove_id(v.players, id)[i]).id != (#[trigger] remove_id(v.players, id)[j]).id,
        forall|i: int, j: int| 0 <= i < remove_id(v.players, id).len() && 0 <= j < v.dead.len()
            ==> (#[trigger] remove_id(v.players, id)[i]).id != #[trigger] v.dead[j],
{
    let s = v.players;
    lemma_index_of(s, id);
    let r = remove_id(s, id);
    if index_of(s, id) >= 0 {
        let k = index_of(s, id);
        assert forall|i: int| 0 <= i < r.len() implies #[trigger] r[i] == s[if i < k { i } else { i + 1 }] by {}
        assert forall|i: int| 0 <= i < r.len() implies (#[trigger] r[i]).id != id by {
            let a = if i < k { i } else { i + 1 };
            assert(s[a] != s[k] || a == k);
            assert(s[a].id != s[k].id);
        }
        assert forall|i: int, j: int| 0 <= i < j < r.len() implies (#[trigger] r[i]).id != (#[trigger] r[j]).id by {
            let a = if i < k { i } else { i + 1 };
            let b = if j < k { j } else { j + 1 };
            assert(s[a].id != s[b].id);
        }
        assert forall|i: int, j: int| 0 <= i < r.len() && 0 <= j < v.dead.len() implies (#[trigger] r[i]).id != #[trigger] v.dead[j] by {
            let a = if i < k { i } else { i + 1 };
            assert(s[a].id != v.dead[j]);
        }
    }
}

/// Removing one entity by index keeps the others inside.
proof fn lemma_remove_inside(s: Seq<Entity>, j: int, w: int, h: int)
    requires
        0 <= j < s.len(),
        all_inside(s, w, h),
    ensures
        all_inside(s.remove(j), w, h),
{
    assert forall|i: int| 0 <= i < s.len() - 1 implies interior((#[trigger] s.remove(j)[i]).pos.x as int, s.remove(j)[i].pos.y as int, w, h) by {
        if i < j {
            assert(s.remove(j)[i] == s[i]);
        } else {
            assert(s.remove(j)[i] == s[i + 1]);
        }
    }
}

proof fn lemma_logs_step(l0: Seq<Seq<char>>, l1: Seq<Seq<char>>, l2: Seq<Seq<char>>, msgs: Seq<Seq<char>>, i: int)
    requires
        0 <= i < msgs.len(),
        logs_extended(l0, l1, msgs.subrange(0, i)),
        logs_extended(l1, l2, seq![msgs[i]]),
    ensures
        logs_extended(l0, l2, msgs.subrange(0, i + 1)),
{
    assert(l2.subrange(0, l1.len() as int) == l1);
    assert(l2.subrange(0, l0.len() as int) =~= l1.subrange(0, l0.len() as int));
    assert forall|k: int| 0 <= k < i + 1 implies ends_with(#[trigger] l2[l0.len() + k], msgs.subrange(0, i + 1)[k]) by {
        if k < i {
            assert(l2.subrange(0, l1.len() as int)[l0.len() + k] == l2[l0.len() + k]);
            assert(ends_with(l1[l0.len() + k], msgs.subrange(0, i)[k]));
            assert(msgs.subrange(0, i)[k] == msgs.subrange(0, i + 1)[k]);
        } else {
            assert(l1.len() == l0.len() + i);
            assert(seq![msgs[i]][0] == msgs.subrange(0, i + 1)[k]);
            assert(ends_with(l2[l1.len() + 0int], seq![msgs[i]][0]));
        }
    }
}

/// Removing an entity keeps the others, and their places.
pub proof fn lemma_remove_id(s: Seq<Entity>, id: u64, w: int, h: int)
    ensures
        all_inside(s, w, h) ==> all_inside(remove_id(s, id), w, h),
        index_of(s, id) >= 0 ==> remove_id(s, id).len() == s.len() - 1,
        index_of(s, id) < 0 ==> remove_id(s, id) == s,
{
    lemma_index_of(s, id);
    if index_of(s, id) >= 0 && all_inside(s, w, h) {
        let k = index_of(s, id);
        assert forall|i: int| 0 <= i < s.len() - 1 implies interior(
            (#[trigger] s.remove(k)[i]).pos.x as int, s.remove(k)[i].pos.y as int, w, h) by {
            if i < k {
                assert(s.remove(k)[i] == s[i]);
            } else {
                assert(s.remove(k)[i] == s[i + 1]);
            }
        }
    }
}

proof fn lemma_empty_log(l: Seq<Seq<char>>)
    ensures
        logs_extended(l, l, Seq::empty()),
{
    assert(l.subrange(0, l.len() as int) =~= l);
}

proof fn lemma_name_index(ns: Seq<(u64, Seq<char>)>, id: u64)
    ensures
        -1 <= name_index(ns, id) < ns.len(),
        name_index(ns, id) >= 0 ==> ns[name_index(ns, id)].0 == id,
        name_index(ns, id) < 0 <==> forall|i: int| 0 <= i < ns.len() ==> (#[trigger] ns[i]).0 != id,
    decreases ns.len(),
{
    if ns.len() > 0 {
        lemma_name_index(ns.drop_last(), id);
        assert forall|i: int| 0 <= i < ns.len() - 1 implies ns.drop_last()[i] == #[trigger] ns[i] by {}
    }
}

proof fn lemma_name_index_prefix(ns: Seq<(u64, Seq<char>)>, id: u64, i: int)
    requires
        0 <= i < ns.len(),
        ns[i].0 == id,
        name_index(ns.subrange(0, i), id) == -1,
    ensures
        name_index(ns, id) == i,
    decreases ns.len(),
{
    if ns.len() - 1 > i {
        assert(ns.drop_last().subrange(0, i) =~= ns.subrange(0, i));
        lemma_name_index_prefix(ns.drop_last(), id, i);
    } else {
        assert(ns.drop_last() =~= ns.subrange(0, i));
    }
}

/// A cell showing the template or nothing but an exit or empty floor holds no entity.
proof fn lemma_vacant(v: WorldView, x: int, y: int)
    ensures
        occupant(v, x, y).type_ == ObjectType::Empty || occupant(v, x, y).type_ == ObjectType::Exit
            ==> crowd(v, x, y) == 0,
{
    lemma_crowd_occupant(v, x, y);
    lemma_last_at_range(v.shots, x, y);
    lemma_last_at_range(v.candies, x, y);
    lemma_last_at_range(v.mobs, x, y);
    lemma_last_at_range(v.players, x, y);
}

proof fn lemma_count_concat(a: Seq<Entity>, b: Seq<Entity>, x: int, y: int)
    ensures
        count_at(a + b, x, y) == count_at(a, x, y) + count_at(b, x, y),
    decreases b.len(),
{
    if b.len() > 0 {
        lemma_count_concat(a, b.drop_last(), x, y);
        assert((a + b).drop_last() =~= a + b.drop_last());
    } else {
        assert(a + b =~= a);
    }
}

proof fn lemma_apart_count(s: Seq<Entity>, x: int, y: int)
    requires
        apart(s),
    ensures
        count_at(s, x, y) <= 1,
    decreases s.len(),
{
    if s.len() > 0 {
        let r = s.drop_last();
        assert(apart(r)) by {
            assert forall|i: int, j: int| 0 <= i < r.len() && 0 <= j < r.len() && i != j
                implies !same_cell((#[trigger] r[i]).pos, (#[trigger] r[j]).pos) by {
                assert(r[i] == s[i] && r[j] == s[j]);
            }
        }
        lemma_apart_count(r, x, y);
        if at_cell(s.last(), x, y) {
            lemma_count_none(r, x, y);
            lemma_last_at_range(r, x, y);
            if last_at(r, x, y) >= 0 {
                let k = last_at(r, x, y);
                assert(r[k] == s[k]);
                assert(!same_cell(s[k].pos, s[s.len() - 1].pos));
            }
        }
    }
}

proof fn lemma_count_none(s: Seq<Entity>, x: int, y: int)
    ensures
        (count_at(s, x, y) == 0) == (last_at(s, x, y) == -1),
        count_at(s, x, y) <= s.len(),
    decreases s.len(),
{
    if s.len() > 0 {
        lemma_count_none(s.drop_last(), x, y);
        lemma_last_at_range(s.drop_last(), x, y);
    }
}

proof fn lemma_count_push(s: Seq<Entity>, e: Entity, x: int, y: int)
    ensures
        count_at(s.push(e), x, y) == count_at(s, x, y) + if at_cell(e, x, y) { 1nat } else { 0nat },
{
    assert(s.push(e).drop_last() =~= s);
}

proof fn lemma_count_remove(s: Seq<Entity>, k: int, x: int, y: int)
    requires
        0 <= k < s.len(),
    ensures
        count_at(s.remove(k), x, y) + (if at_cell(s[k], x, y) { 1nat } else { 0nat }) == count_at(s, x, y),
    decreases s.len(),
{
    if k == s.len() - 1 {
        assert(s.remove(k) =~= s.drop_last());
    } else {
        lemma_count_remove(s.drop_last(), k, x, y);
        assert(s.remove(k) =~= s.drop_last().remove(k).push(s.last()));
        lemma_count_push(s.drop_last().remove(k), s.last(), x, y);
    }
}

proof fn lemma_count_update(s: Seq<Entity>, k: int, e: Entity, x: int, y: int)
    requires
        0 <= k < s.len(),
    ensures
        count_at(s.update(k, e), x, y) + (if at_cell(s[k], x, y) { 1nat } else { 0nat })
            == count_at(s, x, y) + (if at_cell(e, x, y) { 1nat } else { 0nat }),
{
    lemma_count_remove(s, k, x, y);
    lemma_count_remove(s.update(k, e), k, x, y);
    assert(s.update(k, e).remove(k) =~= s.remove(k));
}

/// A cell that shows the template holds no entity; a cell that shows an
/// entity holds exactly that one when cells are never shared.
proof fn lemma_crowd_occupant(v: WorldView, x: int, y: int)
    ensures
        (occupant(v, x, y) == v.template[y][x]) || crowd(v, x, y) >= 1,
        crowd(v, x, y) == 0 ==> occupant(v, x, y) == v.template[y][x],
        last_at(v.shots, x, y) < 0 && last_at(v.candies, x, y) < 0 && last_at(v.mobs, x, y) < 0
            && last_at(v.players, x, y) < 0 ==> crowd(v, x, y) == 0,
        last_at(v.shots, x, y) >= 0 ==> count_at(v.shots, x, y) >= 1,
        last_at(v.candies, x, y) >= 0 ==> count_at(v.candies, x, y) >= 1,
        last_at(v.mobs, x, y) >= 0 ==> count_at(v.mobs, x, y) >= 1,
        last_at(v.players, x, y) >= 0 ==> count_at(v.players, x, y) >= 1,
{
    lemma_count_none(v.shots, x, y);
    lemma_count_none(v.candies, x, y);
    lemma_count_none(v.mobs, x, y);
    lemma_count_none(v.players, x, y);
    lemma_last_at_range(v.shots, x, y);
    lemma_last_at_range(v.candies, x, y);
    lemma_last_at_range(v.mobs, x, y);
    lemma_last_at_range(v.players, x, y);
}

/// An in-bounds cell that holds anything but a wall is an interior cell.
pub proof fn lemma_occupant_inside(v: WorldView, x: int, y: int)
    requires
        world_wf(v),
        0 <= x < grid_width(v),
        0 <= y < grid_height(v),
    ensures
        occupant(v, x, y).type_ != ObjectType::Wall ==> interior(x, y, grid_width(v), grid_height(v)),
{
    lemma_last_at_range(v.shots, x, y);
    lemma_last_at_range(v.candies, x, y);
    lemma_last_at_range(v.mobs, x, y);
    lemma_last_at_range(v.players, x, y);
}

/// Takes `n` cells, drawn at random, out of `free`, as entities with random ids.
fn draw_cells(free: &mut Vec<Point>, n: usize) -> (out: Vec<Entity>)
    requires
        n <= old(free)@.len(),
        distinct_cells(old(free)@),
    ensures
        out@.len() == n,
        final(free)@.len() == old(free)@.len() - n,
        distinct_cells(final(free)@),
        apart(out@),
        forall|i: int| 0 <= i < final(free)@.len() ==> listed(old(free)@, #[trigger] final(free)@[i]),
        forall|i: int| 0 <= i < n ==> listed(old(free)@, (#[trigger] out@[i]).pos) && !listed(final(free)@, out@[i].pos),
{
    let ghost start = free@;
    let mut out: Vec<Entity> = Vec::new();
    let mut i: usize = 0;
    assert forall|k: int| 0 <= k < free@.len() implies listed(start, #[trigger] free@[k]) by {
        assert(same_cell(start[k], free@[k]));
    }
    while i < n
        invariant
            i <= n,
            n <= start.len(),
            out@.len() == i,
            free@.len() == start.len() - i,
            distinct_cells(start),
            distinct_cells(free@),
            apart(out@),
            forall|k: int| 0 <= k < free@.len() ==> listed(start, #[trigger] free@[k]),
            forall|k: int| 0 <= k < i ==> listed(start, (#[trigger] out@[k]).pos) && !listed(free@, out@[k].pos),
        decreases n - i,
    {
        let ghost before = free@;
        let j = random_below(0, free.len());
        let p = free.swap_remove(j);
        let id = random_id();
        assert forall|k: int| 0 <= k < free@.len() implies #[trigger] free@[k] == before[if k == j { before.len() - 1 } else { k }] by {}
        assert(!listed(free@, p)) by {
            if listed(free@, p) {
                let k = choose|k: int| 0 <= k < free@.len() && same_cell(free@[k], p);
                let a = if k == j { before.len() - 1 } else { k };
                assert(same_cell(before[a], before[j as int]));
            }
        }
        assert forall|k: int| 0 <= k < i implies !listed(free@, (#[trigger] out@[k]).pos) by {
            if listed(free@, out@[k].pos) {
                let q = choose|q: int| 0 <= q < free@.len() && same_cell(free@[q], out@[k].pos);
                let a = if q == j { before.len() - 1 } else { q };
                assert(same_cell(before[a], out@[k].pos));
            }
        }
        assert forall|k: int| 0 <= k < i implies !same_cell((#[trigger] out@[k]).pos, p) by {
            assert(same_cell(before[j as int], p));
        }
        assert forall|a: int, b: int| 0 <= a < free@.len() && 0 <= b < free@.len() && a != b
            implies !same_cell(#[trigger] free@[a], #[trigger] free@[b]) by {
            let a2 = if a == j { before.len() - 1 } else { a };
            let b2 = if b == j { before.len() - 1 } else { b };
            assert(before[a2] == free@[a] && before[b2] == free@[b]);
        }
        assert(listed(start, before[j as int]));
        assert forall|k: int| 0 <= k < free@.len() implies listed(start, #[trigger] free@[k]) by {
            let a = if k == j { before.len() - 1 } else { k };
            assert(listed(start, before[a]));
        }
        out.push(Entity { id, pos: p });
        i = i + 1;
    }
    out
}

/// The last entity of `s` on `(x, y)`.
fn find_at(s: &Vec<Entity>, x: usize, y: usize) -> (k: Option<usize>)
    ensures
        k matches Some(i) ==> i == last_at(s@, x as int, y as int) && i < s@.len(),
        k is None ==> last_at(s@, x as int, y as int) == -1,
{
    proof { lemma_last_at_range(s@, x as int, y as int); }
    let mut found: Option<usize> = None;
    let mut i: usize = 0;
    while i < s.len()
        invariant
            i <= s@.len(),
            found matches Some(j) ==> j == last_at(s@.subrange(0, i as int), x as int, y as int),
            found is None ==> last_at(s@.subrange(0, i as int), x as int, y as int) == -1,
        decreases s@.len() - i,
    {
        assert(s@.subrange(0, i + 1).drop_last() =~= s@.subrange(0, i as int));
        if s[i].pos.x == x && s[i].pos.y == y {
            found = Some(i);
        }
        i = i + 1;
    }
    assert(s@.subrange(0, i as int) =~= s@);
    found
}

/// The first entity of `s` with id `id`.
fn find_id(s: &Vec<Entity>, id: u64) -> (k: Option<usize>)
    ensures
        k matches Some(i) ==> i == index_of(s@, id) && i < s@.len(),
        k is None ==> index_of(s@, id) == -1,
{
    proof { lemma_index_of(s@, id); }
    let mut found: Option<usize> = None;
    let mut i: usize = 0;
    while i < s.len()
        invariant
            i <= s@.len(),
            found matches Some(j) ==> j == index_of(s@.subrange(0, i as int), id),
            found is None ==> index_of(s@.subrange(0, i as int), id) == -1,
        decreases s@.len() - i,
    {
        assert(s@.subrange(0, i + 1).drop_last() =~= s@.subrange(0, i as int));
        if found.is_none() && s[i].id == id {
            found = Some(i);
        }
        i = i + 1;
    }
    assert(s@.subrange(0, i as int) =~= s@);
    found
}

/// Removes the first entity of `s` with id `id`, if any.
fn remove_by_id(s: &mut Vec<Entity>, id: u64)
    ensures
        final(s)@ == remove_id(old(s)@, id),
{
    match find_id(s, id) {
        Some(i) => {
            proof { lemma_index_of(old(s)@, id); }
            s.remove(i);
        },
        None => {},
    }
}

pub proof fn lemma_last_at_range(s: Seq<Entity>, x: int, y: int)
    ensures
        -1 <= last_at(s, x, y) < s.len(),
        last_at(s, x, y) >= 0 ==> at_cell(s[last_at(s, x, y)], x, y),
    decreases s.len(),
{
    if s.len() > 0 {
        lemma_last_at_range(s.drop_last(), x, y);
    }
}

pub proof fn lemma_index_of(s: Seq<Entity>, id: u64)
    ensures
        -1 <= index_of(s, id) < s.len(),
        index_of(s, id) >= 0 ==> s[index_of(s, id)].id == id,
        index_of(s, id) < 0 <==> forall|i: int| 0 <= i < s.len() ==> (#[trigger] s[i]).id != id,
    decreases s.len(),
{
    if s.len() > 0 {
        lemma_index_of(s.drop_last(), id);
        assert forall|i: int| 0 <= i < s.len() - 1 implies s.drop_last()[i] == #[trigger] s[i] by {}
    }
}

} // verus!
