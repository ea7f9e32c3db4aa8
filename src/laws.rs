//! Properties that hold of every world and every step of the game.

use vstd::prelude::*;

use crate::map::{glyph, grid_text, on_ring, row_text, step_x, step_y, MapObject, ObjectType};
use crate::world::{
    action_refusal, grid_height, grid_width, index_of, lemma_index_of, lemma_last_at_range,
    last_at, mob_outcome,
    move_outcome, occupant, shoot_outcome, shot_outcome, shots_from, world_wf, join_outcome, WorldView,
};

verus! {

proof fn lemma_row_text(row: Seq<MapObject>)
    ensures
        row_text(row).len() == row.len(),
        forall|x: int| 0 <= x < row.len() ==> #[trigger] row_text(row)[x] == glyph(row[x].type_),
    decreases row.len(),
{
    if row.len() > 0 {
        lemma_row_text(row.drop_last());
        assert forall|x: int| 0 <= x < row.len() implies #[trigger] row_text(row)[x] == glyph(row[x].type_) by {
            if x < row.len() - 1 {
                assert(row_text(row)[x] == row_text(row.drop_last())[x]);
                assert(row.drop_last()[x] == row[x]);
            }
        }
    }
}

/// In the text of a grid whose rows all have `w` cells, cell `(x, y)` is
/// shown at position `y * (w + 2) + x`.
pub proof fn lemma_grid_text_at(rows: Seq<Seq<MapObject>>, w: int, x: int, y: int)
    requires
        w >= 0,
        forall|k: int| 0 <= k < rows.len() ==> #[trigger] rows[k].len() == w,
        0 <= y < rows.len(),
        0 <= x < w,
    ensures
        grid_text(rows).len() == rows.len() * (w + 2),
        grid_text(rows)[y * (w + 2) + x] == glyph(rows[y][x].type_),
    decreases rows.len(),
{
    let n = rows.len() as int;
    let prefix = rows.drop_last();
    lemma_grid_text_len(prefix, w);
    lemma_row_text(rows.last());
    assert((n - 1) * (w + 2) + (w + 2) == n * (w + 2)) by (nonlinear_arith);
    if y < n - 1 {
        lemma_grid_text_at(prefix, w, x, y);
        assert(y * (w + 2) + x < (n - 1) * (w + 2)) by (nonlinear_arith)
            requires y < n - 1, x < w, w >= 0;
        assert(0 <= y * (w + 2) + x) by (nonlinear_arith)
            requires 0 <= y, 0 <= x, w >= 0;
        assert(prefix[y] == rows[y]);
    } else {
        assert(y * (w + 2) + x == (n - 1) * (w + 2) + x);
    }
}

proof fn lemma_grid_text_len(rows: Seq<Seq<MapObject>>, w: int)
    requires
        w >= 0,
        forall|k: int| 0 <= k < rows.len() ==> #[trigger] rows[k].len() == w,
    ensures
        grid_text(rows).len() == rows.len() * (w + 2),
    decreases rows.len(),
{
    if rows.len() > 0 {
        let n = rows.len() as int;
        lemma_grid_text_len(rows.drop_last(), w);
        lemma_row_text(rows.last());
        assert((n - 1) * (w + 2) + (w + 2) == n * (w + 2)) by (nonlinear_arith);
    }
}

/// Every cell of a world's outer ring is shown as a wall when the template
/// is rendered, and the exit cell of the template is an exit.
pub proof fn law_walled_and_exit(v: WorldView, x: int, y: int)
    requires
        world_wf(v),
        0 <= x < grid_width(v),
        0 <= y < grid_height(v),
        on_ring(x, y, grid_width(v), grid_height(v)),
    ensures
        grid_text(v.template)[y * (grid_width(v) + 2) + x] == '#',
        v.template[v.exit.y as int][v.exit.x as int].type_ == ObjectType::Exit,
{
    lemma_grid_text_at(v.template, grid_width(v), x, y);
}

/// The cell that player `id` moves towards when it steps in direction `dir`.
pub open spec fn move_target(v: WorldView, id: u64, dir: crate::map::Direction) -> MapObject {
    let p = v.players[index_of(v.players, id)].pos;
    occupant(v, step_x(p.x as int, dir), step_y(p.y as int, dir))
}

/// The coordinates of the cell ahead of player `id`.
pub open spec fn shot_cell(v: WorldView, id: u64) -> (int, int) {
    let p = v.players[index_of(v.players, id)].pos;
    (step_x(p.x as int, p.dir), step_y(p.y as int, p.dir))
}

/// The index of the mob standing on the cell ahead of player `id`.
pub open spec fn shot_mob_index(v: WorldView, id: u64) -> int {
    last_at(v.mobs, shot_cell(v, id).0, shot_cell(v, id).1)
}

/// The cell ahead of player `id`, where its shot goes.
pub open spec fn shot_target(v: WorldView, id: u64) -> MapObject {
    let p = v.players[index_of(v.players, id)].pos;
    occupant(v, step_x(p.x as int, p.dir), step_y(p.y as int, p.dir))
}

proof fn lemma_target_in_bounds(v: WorldView, id: u64, dir: crate::map::Direction)
    requires
        world_wf(v),
        index_of(v.players, id) >= 0,
    ensures
        ({
            let p = v.players[index_of(v.players, id)].pos;
            &&& 0 <= step_x(p.x as int, dir) < grid_width(v)
            &&& 0 <= step_y(p.y as int, dir) < grid_height(v)
        }),
{
    lemma_index_of(v.players, id);
    let i = index_of(v.players, id);
    assert(crate::map::interior(v.players[i].pos.x as int, v.players[i].pos.y as int, grid_width(v), grid_height(v)));
}

/// A move onto a candy eats exactly that candy; no move ever adds candies.
pub proof fn law_candy_eaten(v: WorldView, id: u64, dir: crate::map::Direction)
    requires
        world_wf(v),
        action_refusal(v, id) is None,
    ensures
        move_outcome(v, id, dir).0.candies.len() <= v.candies.len(),
        move_target(v, id, dir).type_ == ObjectType::Candy
            ==> move_outcome(v, id, dir).0.candies.len() == v.candies.len() - 1,
        move_target(v, id, dir).type_ == ObjectType::Candy ==> ({
            let p = v.players[index_of(v.players, id)].pos;
            let tx = step_x(p.x as int, dir);
            let ty = step_y(p.y as int, dir);
            let k = last_at(v.candies, tx, ty);
            let after = move_outcome(v, id, dir).0;
            &&& 0 <= k < v.candies.len()
            &&& v.candies[k].pos.x == tx && v.candies[k].pos.y == ty
            &&& v.candies[k].id == move_target(v, id, dir).id
            &&& after.candies == v.candies.remove(k)
            &&& after.players[index_of(v.players, id)].pos == crate::map::Point { x: tx as usize, y: ty as usize, dir }
        }),
{
    lemma_target_in_bounds(v, id, dir);
    let p = v.players[index_of(v.players, id)].pos;
    let tx = step_x(p.x as int, dir);
    let ty = step_y(p.y as int, dir);
    lemma_last_at_range(v.candies, tx, ty);
    lemma_last_at_range(v.shots, tx, ty);
    lemma_index_of(v.players, id);
}

/// A player who steps onto the exit once every candy is gone wins; once
/// there is a winner, every move, shot and join is refused, so the winner
/// is set at most once. Mobs and shots never change the winner either.
pub proof fn law_single_winner(v: WorldView, id: u64, other: u64, dir: crate::map::Direction, k: int, d2: crate::map::Direction)
    requires
        world_wf(v),
    ensures
        action_refusal(v, id) is None && v.candies.len() == 0 && move_target(v, id, dir).type_ == ObjectType::Exit
            ==> move_outcome(v, id, dir).0.winner == Some(id),
        v.winner is Some ==> action_refusal(v, other) == Some(crate::world::ActionError::Finished),
        0 <= k < v.mobs.len() ==> mob_outcome(v, k, d2).0.winner == v.winner,
        shots_from(v, 0).0.winner == v.winner,
{
    lemma_shots_keep_winner(v, 0);
}

proof fn lemma_shots_keep_winner(v: WorldView, j: int)
    ensures
        shots_from(v, j).0.winner == v.winner,
    decreases v.shots.len() - j,
{
    if 0 <= j < v.shots.len() {
        let r = shot_outcome(v, j);
        lemma_shots_keep_winner(r.0, r.1);
    }
}

/// No cell ever holds two entities: what a cell shows is all that stands there.
pub proof fn law_one_entity_per_cell(v: WorldView, x: int, y: int)
    requires
        world_wf(v),
    ensures
        crate::world::crowd(v, x, y) <= 1,
{
}

/// A dead player can neither move nor shoot, and no cell holds it, so no
/// action can hit it.
pub proof fn law_dead_stay_out(v: WorldView, id: u64, x: int, y: int)
    requires
        world_wf(v),
        v.dead.contains(id),
        0 <= x < grid_width(v),
        0 <= y < grid_height(v),
    ensures
        action_refusal(v, id) is Some,
        !(occupant(v, x, y).type_ is Player && occupant(v, x, y).id == id),
{
    lemma_last_at_range(v.shots, x, y);
    lemma_last_at_range(v.candies, x, y);
    lemma_last_at_range(v.mobs, x, y);
    lemma_last_at_range(v.players, x, y);
    let j = choose|j: int| 0 <= j < v.dead.len() && v.dead[j] == id;
    let pi = last_at(v.players, x, y);
    if pi >= 0 {
        assert(v.players[pi].id != v.dead[j]);
    }
}

/// Shooting a mob next to the shooter removes exactly that mob and makes no shot.
pub proof fn law_shot_mob_removed(v: WorldView, id: u64, shot_id: u64)
    requires
        world_wf(v),
        action_refusal(v, id) is None,
        shot_target(v, id).type_ == ObjectType::Mob,
    ensures
        shoot_outcome(v, id, shot_id).0.mobs == v.mobs.remove(shot_mob_index(v, id)),
        v.mobs[shot_mob_index(v, id)].id == shot_target(v, id).id,
        v.mobs[shot_mob_index(v, id)].pos.x == shot_cell(v, id).0,
        v.mobs[shot_mob_index(v, id)].pos.y == shot_cell(v, id).1,
        shoot_outcome(v, id, shot_id).0.mobs.len() == v.mobs.len() - 1,
        shoot_outcome(v, id, shot_id).0.shots == v.shots,
{
    let p = v.players[index_of(v.players, id)].pos;
    lemma_target_in_bounds(v, id, p.dir);
    let tx = step_x(p.x as int, p.dir);
    let ty = step_y(p.y as int, p.dir);
    lemma_last_at_range(v.shots, tx, ty);
    lemma_last_at_range(v.candies, tx, ty);
    lemma_last_at_range(v.mobs, tx, ty);
}

/// Shooting a player next to the shooter kills it at once: it leaves the
/// live players, joins the dead, and no shot is made.
pub proof fn law_shot_player_killed(v: WorldView, id: u64, shot_id: u64)
    requires
        world_wf(v),
        action_refusal(v, id) is None,
        shot_target(v, id).type_ is Player,
    ensures
        ({
            let k = last_at(v.players, shot_cell(v, id).0, shot_cell(v, id).1);
            let after = shoot_outcome(v, id, shot_id).0;
            &&& 0 <= k < v.players.len()
            &&& v.players[k].id == shot_target(v, id).id
            &&& v.players[k].pos.x == shot_cell(v, id).0 && v.players[k].pos.y == shot_cell(v, id).1
            &&& after.players == v.players.remove(k)
            &&& after.dead == v.dead.push(v.players[k].id)
            &&& after.shots == v.shots
            &&& after.winner == v.winner
        }),
{
    let p = v.players[index_of(v.players, id)].pos;
    lemma_target_in_bounds(v, id, p.dir);
    let tx = step_x(p.x as int, p.dir);
    let ty = step_y(p.y as int, p.dir);
    lemma_last_at_range(v.shots, tx, ty);
    lemma_last_at_range(v.candies, tx, ty);
    lemma_last_at_range(v.mobs, tx, ty);
    lemma_last_at_range(v.players, tx, ty);
}

/// A lone shot with an empty cell ahead moves exactly one cell that way and
/// keeps its id and heading; with anything else ahead it is gone. Once no
/// shot is left, moving the shots changes nothing: a spent shot never comes back.
pub proof fn law_shot_flight(v: WorldView)
    requires
        world_wf(v),
        v.shots.len() <= 1,
    ensures
        v.shots.len() == 0 ==> shots_from(v, 0).0 == v,
        v.shots.len() == 1 ==> ({
            let s = v.shots[0];
            let tx = step_x(s.pos.x as int, s.pos.dir);
            let ty = step_y(s.pos.y as int, s.pos.dir);
            let after = shots_from(v, 0).0.shots;
            if occupant(v, tx, ty).type_ == ObjectType::Empty {
                &&& after.len() == 1
                &&& after[0].id == s.id
                &&& after[0].pos.x == tx
                &&& after[0].pos.y == ty
                &&& after[0].pos.dir == s.pos.dir
            } else {
                after.len() == 0
            }
        }),
{
    if v.shots.len() == 1 {
        let r = shot_outcome(v, 0);
        let s = v.shots[0];
        assert(crate::map::interior(s.pos.x as int, s.pos.y as int, grid_width(v), grid_height(v)));
        let tx = step_x(s.pos.x as int, s.pos.dir);
        let ty = step_y(s.pos.y as int, s.pos.dir);
        if occupant(v, tx, ty).type_ == ObjectType::Empty {
            assert(r.1 == 1);
            assert(r.0.shots.len() == 1);
        } else {
            assert(r.1 == 0);
            assert(r.0.shots.len() == 0);
        }
        assert(shots_from(r.0, r.1).0 == r.0);
        assert(shots_from(v, 0).0 == r.0);
    }
}

/// Through every move, shot, mob step, flight of shots and join, the
/// winner once set stays the same, the candies never grow in number, and
/// the dead stay dead: the list of the dead only grows at its end.
pub proof fn law_progress_is_kept(
    v: WorldView,
    id: u64,
    dir: crate::map::Direction,
    shot_id: u64,
    k: int,
    name: Seq<char>,
    x: int,
    y: int,
)
    requires
        world_wf(v),
    ensures
        action_refusal(v, id) is None ==> kept(v, move_outcome(v, id, dir).0),
        action_refusal(v, id) is None ==> kept(v, shoot_outcome(v, id, shot_id).0),
        0 <= k < v.mobs.len() ==> kept(v, mob_outcome(v, k, dir).0),
        kept(v, shots_from(v, 0).0),
        kept(v, join_outcome(v, name, id, x, y)),
{
    if action_refusal(v, id) is None {
        lemma_index_of(v.players, id);
        let p = v.players[index_of(v.players, id)].pos;
        lemma_last_at_range(v.candies, step_x(p.x as int, dir), step_y(p.y as int, dir));
        assert(v.dead.push(id).subrange(0, v.dead.len() as int) =~= v.dead);
    }
    assert forall|d: u64| v.dead.push(d).subrange(0, v.dead.len() as int) =~= v.dead by {}
    lemma_shots_kept(v, 0);
    assert(v.dead.subrange(0, v.dead.len() as int) =~= v.dead);
}

/// `w` keeps what `v` had won, collected and lost.
pub open spec fn kept(v: WorldView, w: WorldView) -> bool {
    &&& (v.winner is Some ==> w.winner == v.winner)
    &&& w.candies.len() <= v.candies.len()
    &&& v.dead.len() <= w.dead.len()
    &&& w.dead.subrange(0, v.dead.len() as int) == v.dead
}

proof fn lemma_shots_kept(v: WorldView, j: int)
    ensures
        kept(v, shots_from(v, j).0),
    decreases v.shots.len() - j,
{
    assert(v.dead.subrange(0, v.dead.len() as int) =~= v.dead);
    if 0 <= j < v.shots.len() {
        let r = shot_outcome(v, j);
        lemma_shots_kept(r.0, r.1);
        assert forall|d: u64| v.dead.push(d).subrange(0, v.dead.len() as int) =~= v.dead by {}
        let w = shots_from(r.0, r.1).0;
        assert(r.0.dead.len() >= v.dead.len());
        assert(r.0.dead.subrange(0, v.dead.len() as int) == v.dead);
        assert(w.dead.subrange(0, v.dead.len() as int) =~= w.dead.subrange(0, r.0.dead.len() as int).subrange(0, v.dead.len() as int));
    }
}

} // verus!
