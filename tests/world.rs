use candy_game::api::{name_taken, PlayerAction};
use candy_game::map::{ConfigError, Direction, ObjectType, Point};
use candy_game::world::{ActionError, World};

fn open_room() -> World {
    World::from_template("######\n#    #\n#    #\n#   X#\n######", 0, 0).ok().unwrap()
}

fn shots(w: &World) -> Vec<Point> {
    w.get_state().objects.iter().filter(|o| matches!(o.0, ObjectType::Shot(_))).map(|o| o.1).collect()
}

fn count(w: &World, kind: ObjectType) -> usize {
    w.get_state().objects.iter().filter(|o| o.0 == kind).count()
}

#[test]
fn new_world_has_requested_entities() {
    let w = World::new(10, 10, 3, 4).ok().unwrap();
    assert_eq!(w.width(), 10);
    assert_eq!(w.height(), 10);
    assert_eq!(w.candies_left(), 4);
    assert_eq!(count(&w, ObjectType::Mob), 3);
    assert_eq!(count(&w, ObjectType::Candy), 4);
    assert!(w.winner().is_none());
    let objs = w.get_state().objects;
    for i in 0..objs.len() {
        for j in 0..objs.len() {
            if i != j {
                assert!((objs[i].1.x, objs[i].1.y) != (objs[j].1.x, objs[j].1.y));
            }
        }
        let e = w.exit();
        assert!((objs[i].1.x, objs[i].1.y) != (e.x, e.y));
    }
}

#[test]
fn new_world_outer_ring_is_wall_and_exit_is_exit() {
    let w = World::new(8, 6, 2, 2).ok().unwrap();
    let text = w.get_map_template().format();
    let rows: Vec<&str> = text.split("\r\n").filter(|r| !r.is_empty()).collect();
    assert_eq!(rows.len(), 6);
    for (y, row) in rows.iter().enumerate() {
        let cs: Vec<char> = row.chars().collect();
        assert_eq!(cs.len(), 8);
        for (x, c) in cs.iter().enumerate() {
            if x == 0 || y == 0 || x == 7 || y == 5 {
                assert_eq!(*c, '#');
            }
        }
    }
    let e = w.exit();
    assert_eq!(w.get_map_template().get_object(&e).type_, ObjectType::Exit);
}

#[test]
fn world_construction_errors() {
    assert!(matches!(World::new(2, 10, 0, 0), Err(ConfigError::TooSmall)));
    assert!(matches!(World::new(3, 3, 0, 1), Err(ConfigError::NotEnoughRoom)));
    assert!(World::new(3, 4, 0, 1).is_ok());
    assert!(matches!(World::from_template("####\n#  #\n####", 0, 0), Err(ConfigError::NoExit)));
    assert!(matches!(World::from_template("####\n#X?#\n####", 0, 0), Err(ConfigError::UnknownCharacter)));
    assert!(matches!(World::from_template("#####\n# X #\n#####", 1, 2), Err(ConfigError::NotEnoughRoom)));
    assert!(World::from_template("#####\n# X #\n#####", 1, 1).is_ok());
    assert!(World::from_template("#####\n# X #\n#####", 1, 0).is_ok());
}

#[test]
fn win_after_collecting_the_only_candy() {
    let mut w = World::new(10, 10, 0, 1).ok().unwrap();
    let candy = w.get_state().objects.iter().find(|o| o.0 == ObjectType::Candy).unwrap().1;
    let exit = w.exit();
    let dirs = [Direction::Up, Direction::Down, Direction::Left, Direction::Right];
    let mut placed = None;
    for d in dirs {
        let (x, y) = match d {
            Direction::Up => (candy.x, candy.y - 1),
            Direction::Down => (candy.x, candy.y + 1),
            Direction::Left => (candy.x - 1, candy.y),
            Direction::Right => (candy.x + 1, candy.y),
        };
        if w.add_player("alice", 42, x, y).is_ok() {
            placed = Some(d);
            break;
        }
    }
    let towards = match placed.unwrap() {
        Direction::Up => Direction::Down,
        Direction::Down => Direction::Up,
        Direction::Left => Direction::Right,
        Direction::Right => Direction::Left,
    };
    assert!(w.move_player(42, towards).is_ok());
    assert_eq!(w.candies_left(), 0);
    let mut x = candy.x;
    let mut y = candy.y;
    while x != exit.x {
        let d = if x < exit.x { Direction::Right } else { Direction::Left };
        assert!(w.move_player(42, d).is_ok());
        x = if x < exit.x { x + 1 } else { x - 1 };
    }
    while y != exit.y {
        let d = if y < exit.y { Direction::Down } else { Direction::Up };
        assert!(w.move_player(42, d).is_ok());
        y = if y < exit.y { y + 1 } else { y - 1 };
    }
    assert_eq!(w.winner(), Some(42));
    assert!(w.snapshot(42).is_finished);
    assert!(w.snapshot(42).player_winner);
    assert!(!w.can_play(42));
}

#[test]
fn exit_refused_while_candies_remain_then_game_finished() {
    let mut w = World::from_template("######\n#   X#\n######", 0, 0).ok().unwrap();
    w.add_player("a", 1, 3, 1).ok().unwrap();
    w.add_player("b", 2, 1, 1).ok().unwrap();
    assert!(w.move_player(1, Direction::Right).is_ok());
    assert_eq!(w.winner(), Some(1));
    assert!(matches!(w.move_player(2, Direction::Right), Err(ActionError::Finished)));
    assert!(matches!(w.player_shoot(2), Err(ActionError::Finished)));
    assert!(matches!(w.spawn_player("c"), Err(ActionError::Finished)));
    assert_eq!(w.winner(), Some(1));
}

#[test]
fn exit_blocked_until_candies_are_gone() {
    let mut w = World::from_template("######\n#   X#\n#    #\n######", 0, 1).ok().unwrap();
    let candy = w.get_state().objects.iter().find(|o| o.0 == ObjectType::Candy).unwrap().1;
    let (px, py) = if (candy.x, candy.y) == (3, 1) { (3, 2) } else { (3, 1) };
    w.add_player("a", 5, px, py).ok().unwrap();
    if (px, py) == (3, 1) {
        assert!(w.move_player(5, Direction::Right).is_ok());
        assert!(w.winner().is_none());
        let logs = w.get_logs();
        assert!(logs[logs.len() - 1].ends_with("You need to collect 1 more candies, a"));
    }
}

#[test]
fn moving_onto_candy_eats_it() {
    let mut w = World::from_template("#####\n#   #\n#  X#\n#####", 0, 1).ok().unwrap();
    let candy = w.get_state().objects.iter().find(|o| o.0 == ObjectType::Candy).unwrap().1;
    let spots = [(1, 1), (2, 1), (3, 1), (1, 2), (2, 2)];
    for (x, y) in spots {
        let near = (x as i64 - candy.x as i64).abs() + (y as i64 - candy.y as i64).abs() == 1;
        if near && w.add_player("p", 3, x, y).is_ok() {
            let d = if x < candy.x {
                Direction::Right
            } else if x > candy.x {
                Direction::Left
            } else if y < candy.y {
                Direction::Down
            } else {
                Direction::Up
            };
            assert!(w.move_player(3, d).is_ok());
            assert_eq!(w.candies_left(), 0);
            let logs = w.get_logs();
            assert!(logs[logs.len() - 1].ends_with("0 candies left"));
            return;
        }
    }
    panic!("no cell next to the candy");
}

#[test]
fn blocked_move_turns_player() {
    let mut w = open_room();
    w.add_player("a", 1, 1, 1).ok().unwrap();
    assert!(w.move_player(1, Direction::Left).is_ok());
    let st = w.get_state();
    let p = st.objects.iter().find(|o| matches!(o.0, ObjectType::Player(_))).unwrap();
    assert_eq!(p.0, ObjectType::Player(Direction::Left));
    assert_eq!((p.1.x, p.1.y), (1, 1));
}

#[test]
fn dead_player_cannot_act_and_is_gone() {
    let mut w = open_room();
    w.add_player("a", 1, 1, 1).ok().unwrap();
    w.add_player("b", 2, 1, 2).ok().unwrap();
    assert!(w.move_player(2, Direction::Up).is_ok());
    assert!(w.player_shoot(2).is_ok());
    assert!(w.snapshot(1).player_dead);
    assert!(matches!(w.move_player(1, Direction::Down), Err(ActionError::Dead)));
    assert!(matches!(w.player_shoot(1), Err(ActionError::Dead)));
    assert!(matches!(w.apply_action(1, PlayerAction::Shoot), Err(ActionError::Dead)));
    assert!(!w.can_play(1));
    assert_eq!(count(&w, ObjectType::Player(Direction::Up)), 1);
    assert!(matches!(w.move_player(99, Direction::Down), Err(ActionError::UnknownPlayer)));
}

#[test]
fn shooting_the_player_ahead_kills_without_a_shot() {
    let mut w = open_room();
    assert_eq!(w.add_player("a", 10, 1, 1).ok(), Some(10));
    assert_eq!(w.add_player("b", 20, 2, 1).ok(), Some(20));
    assert!(w.move_player(10, Direction::Right).is_ok());
    assert!(w.player_shoot(10).is_ok());
    let st = w.snapshot(20);
    assert!(st.player_dead);
    assert!(!w.snapshot(10).player_dead);
    assert!(shots(&w).is_empty());
    let logs = w.get_logs();
    assert!(logs[logs.len() - 1].ends_with("a killed b"));
}

#[test]
fn shooting_an_adjacent_mob_removes_it() {
    for _ in 0..200 {
        let mut w = World::from_template("###\n# #\n# #\n#X#\n###", 1, 0).ok().unwrap();
        if w.add_player("p", 5, 1, 2).is_ok() {
            assert_eq!(count(&w, ObjectType::Mob), 1);
            assert!(w.player_shoot(5).is_ok());
            assert_eq!(count(&w, ObjectType::Mob), 0);
            assert!(shots(&w).is_empty());
            return;
        }
    }
    panic!("the mob never stood above the player");
}

#[test]
fn shot_flies_one_cell_per_tick_until_it_hits() {
    let mut w = open_room();
    w.add_player("a", 1, 1, 3).ok().unwrap();
    assert!(w.apply_action(1, PlayerAction::Shoot).is_ok());
    assert_eq!(shots(&w).iter().map(|p| (p.x, p.y, p.dir)).collect::<Vec<_>>(), vec![(1, 2, Direction::Up)]);
    w.move_shots();
    assert_eq!(shots(&w).iter().map(|p| (p.x, p.y)).collect::<Vec<_>>(), vec![(1, 1)]);
    w.move_shots();
    assert!(shots(&w).is_empty());
    w.move_shots();
    assert!(shots(&w).is_empty());
}

#[test]
fn stray_shot_kills_player() {
    let mut w = open_room();
    w.add_player("a", 1, 1, 3).ok().unwrap();
    w.add_player("b", 2, 1, 1).ok().unwrap();
    assert!(w.player_shoot(1).is_ok());
    w.move_shots();
    assert!(w.snapshot(2).player_dead);
    assert!(shots(&w).is_empty());
    let logs = w.get_logs();
    assert!(logs[logs.len() - 1].ends_with("b killed by stray shot"));
}

#[test]
fn mob_eventually_kills_cornered_player() {
    let mut w = World::from_template("######\n#   X#\n######", 1, 0).ok().unwrap();
    let id = w.spawn_player("p").ok().unwrap();
    let mut steps = 0;
    while !w.snapshot(id).player_dead && steps < 100000 {
        w.move_random_mob();
        steps += 1;
    }
    assert!(w.snapshot(id).player_dead);
    assert_eq!(count(&w, ObjectType::Player(Direction::Up)), 0);
    assert_eq!(count(&w, ObjectType::Mob), 1);
}

#[test]
fn spawn_player_takes_a_free_cell() {
    let mut w = World::from_template("#####\n#  X#\n#####", 1, 0).ok().unwrap();
    let id = w.spawn_player("p").ok().unwrap();
    let st = w.get_state();
    let p = st.objects.iter().find(|o| matches!(o.0, ObjectType::Player(_))).unwrap().1;
    let m = st.objects.iter().find(|o| o.0 == ObjectType::Mob).unwrap().1;
    assert!((p.x, p.y) != (m.x, m.y));
    assert!(p.x >= 1 && p.x <= 2 && p.y == 1);
    assert!(matches!(w.spawn_player("q"), Err(ActionError::NoRoom)));
    assert!(w.can_play(id));
    let logs = w.get_logs();
    assert!(logs[0].ends_with(": Player p entered world"));
    assert_eq!(logs[0].len(), "00:00:00: Player p entered world".len());
}

#[test]
fn spawned_ids_differ() {
    let mut w = World::new(12, 12, 0, 0).ok().unwrap();
    let a = w.spawn_player("a").ok().unwrap();
    let b = w.spawn_player("b").ok().unwrap();
    assert_ne!(a, b);
}

#[test]
fn join_refusals() {
    let mut w = open_room();
    w.add_player("a", 1, 1, 1).ok().unwrap();
    assert!(matches!(w.add_player("b", 2, 1, 1), Err(ActionError::NoRoom)));
    assert!(matches!(w.add_player("b", 2, 0, 0), Err(ActionError::NoRoom)));
    assert!(matches!(w.add_player("b", 1, 2, 2), Err(ActionError::IdTaken)));
}

#[test]
fn erase_player_is_idempotent() {
    let mut w = open_room();
    w.add_player("a", 1, 1, 1).ok().unwrap();
    w.erase_player(1);
    assert_eq!(count(&w, ObjectType::Player(Direction::Up)), 0);
    let n = w.get_logs().len();
    assert!(w.get_logs()[n - 1].ends_with("Player a left the game"));
    w.erase_player(1);
    assert_eq!(w.get_logs().len(), n);
    assert!(matches!(w.move_player(1, Direction::Down), Err(ActionError::UnknownPlayer)));
}

#[test]
fn erase_dead_player_clears_dead_set() {
    let mut w = open_room();
    w.add_player("a", 1, 1, 1).ok().unwrap();
    w.add_player("b", 2, 1, 2).ok().unwrap();
    assert!(w.player_shoot(2).is_ok());
    assert!(w.snapshot(1).player_dead);
    w.erase_player(1);
    assert!(!w.snapshot(1).player_dead);
    assert!(w.get_state().dead_players.is_empty());
}

#[test]
fn overlay_shows_entities_on_template() {
    let mut w = open_room();
    w.add_player("a", 1, 2, 2).ok().unwrap();
    assert!(w.move_player(1, Direction::Right).is_ok());
    assert_eq!(w.fill_map().format(), "######\r\n#    #\r\n#  > #\r\n#   X#\r\n######\r\n");
    assert_eq!(w.occupant_at(3, 2).id, 1);
}

#[test]
fn name_taken_checks_names() {
    let names = vec![String::from("ann"), String::from("bob")];
    assert!(name_taken(&names, &String::from("bob")));
    assert!(!name_taken(&names, &String::from("bo")));
}

#[test]
fn move_world_ticks_mobs_and_shots() {
    let mut w = World::from_template("######\n#    #\n#    #\n#   X#\n######", 0, 0).ok().unwrap();
    w.add_player("a", 1, 1, 3).ok().unwrap();
    assert!(w.player_shoot(1).is_ok());
    w.move_world();
    assert_eq!(shots(&w).iter().map(|p| (p.x, p.y)).collect::<Vec<_>>(), vec![(1, 1)]);
}

#[test]
fn room_boundaries_are_exact() {
    assert!(World::new(4, 4, 1, 2).is_ok());
    assert!(matches!(World::new(4, 4, 2, 2), Err(ConfigError::NotEnoughRoom)));
    assert!(World::new(5, 4, 0, 5).is_ok());
    assert!(matches!(World::new(5, 4, 0, 6), Err(ConfigError::NotEnoughRoom)));
    assert!(World::from_template("######\n#  #X#\n######", 0, 2).is_ok());
    assert!(matches!(World::from_template("######\n#  #X#\n######", 1, 2), Err(ConfigError::NotEnoughRoom)));
}

#[test]
fn spawn_succeeds_in_a_fresh_world() {
    let mut w = World::new(6, 5, 2, 2).ok().unwrap();
    let id = w.spawn_player("solo").ok().unwrap();
    assert!(w.can_play(id));
    assert_eq!(count(&w, ObjectType::Player(Direction::Up)), 1);
}

#[test]
fn joining_with_a_recorded_id_is_refused() {
    let mut w = open_room();
    w.add_player("a", 1, 1, 1).ok().unwrap();
    w.add_player("b", 2, 1, 2).ok().unwrap();
    assert!(w.player_shoot(2).is_ok());
    assert!(matches!(w.add_player("c", 1, 3, 3), Err(ActionError::IdTaken)));
    w.erase_player(1);
    assert!(w.add_player("c", 1, 3, 3).is_ok());
}

#[test]
fn leaving_removes_every_trace() {
    let mut w = open_room();
    w.add_player("a", 1, 1, 1).ok().unwrap();
    w.add_player("b", 2, 1, 2).ok().unwrap();
    assert!(w.player_shoot(2).is_ok());
    w.erase_player(1);
    w.erase_player(2);
    assert!(w.get_state().dead_players.is_empty());
    assert_eq!(count(&w, ObjectType::Player(Direction::Up)), 0);
    assert!(matches!(w.move_player(2, Direction::Down), Err(ActionError::UnknownPlayer)));
}

#[test]
fn new_world_has_one_interior_exit_and_nothing_on_it() {
    let w = World::new(7, 6, 3, 3).ok().unwrap();
    let text = w.get_map_template().format();
    assert_eq!(text.matches('X').count(), 1);
    let e = w.exit();
    assert!(e.x >= 1 && e.x <= 5 && e.y >= 1 && e.y <= 4);
    for o in w.get_state().objects {
        assert!((o.1.x, o.1.y) != (e.x, e.y));
        assert_eq!(w.get_map_template().get_object(&o.1).type_, ObjectType::Empty);
    }
    assert!(w.get_logs().is_empty());
}
