use candy_game::map::{ConfigError, Direction, Grid, MapObject, ObjectType, Point};
use candy_game::text::decimal_text;

#[test]
fn new_grid_renders_walls_round_empty_cells() {
    let g = Grid::new(4, 3).ok().unwrap();
    assert_eq!(g.width(), 4);
    assert_eq!(g.height(), 3);
    assert_eq!(g.format(), "####\r\n#  #\r\n####\r\n");
}

#[test]
fn new_grid_too_small() {
    assert!(matches!(Grid::new(2, 5), Err(ConfigError::TooSmall)));
    assert!(matches!(Grid::new(5, 2), Err(ConfigError::TooSmall)));
    assert!(Grid::new(3, 3).is_ok());
}

#[test]
fn parse_reads_walls_exit_and_space() {
    let g = Grid::parse("#####\n#  X#\n#####").ok().unwrap();
    assert_eq!(g.width(), 5);
    assert_eq!(g.height(), 3);
    let exit = g.get_object(&Point::new(3, 1));
    assert_eq!(exit.type_, ObjectType::Exit);
    assert_eq!(g.get_object(&Point::new(1, 1)).type_, ObjectType::Empty);
    assert_eq!(g.format(), "#####\r\n#  X#\r\n#####\r\n");
}

#[test]
fn parse_accepts_crlf_and_refuses_other_wall_glyphs() {
    let g = Grid::parse("###\r\n#X#\r\n###\r\n").ok().unwrap();
    assert_eq!(g.format(), "###\r\n#X#\r\n###\r\n");
    assert!(matches!(Grid::parse("###\n#█#\n###"), Err(ConfigError::UnknownCharacter)));
    assert!(matches!(Grid::parse("█████\n█ X █\n█████"), Err(ConfigError::UnknownCharacter)));
}

#[test]
fn parse_round_trips_rendered_text() {
    let text = "######\r\n#    #\r\n#  X #\r\n######\r\n";
    let g = Grid::parse(text).ok().unwrap();
    assert_eq!(g.format(), text);
}

#[test]
fn parse_errors() {
    assert!(matches!(Grid::parse("###\n#?#\n###"), Err(ConfigError::UnknownCharacter)));
    assert!(matches!(Grid::parse("###\n###"), Err(ConfigError::TooSmall)));
    assert!(matches!(Grid::parse("##\n##\n##"), Err(ConfigError::TooSmall)));
    assert!(matches!(Grid::parse("####\n# #\n####"), Err(ConfigError::RaggedRows)));
    assert!(matches!(Grid::parse("###\n  #\n###"), Err(ConfigError::OpenBorder)));
    assert!(matches!(Grid::parse("# #\n# #\n###"), Err(ConfigError::OpenBorder)));
}

#[test]
fn cell_mutations() {
    let g = Grid::new(5, 4).ok().unwrap();
    let a = Point::new(1, 1);
    let b = Point::new(2, 2);
    let mut g = g.place_object_with_id(9, ObjectType::Mob, &a);
    assert_eq!(*g.get_object(&a), MapObject { id: 9, type_: ObjectType::Mob });
    g.swap_objects(&a, &b);
    assert_eq!(g.get_object(&a).type_, ObjectType::Empty);
    assert_eq!(*g.get_object(&b), MapObject { id: 9, type_: ObjectType::Mob });
    g.clear_object(&b);
    assert_eq!(g.get_object(&b).type_, ObjectType::Empty);
    let g = g.place_object(ObjectType::Player(Direction::Left), &a);
    assert_eq!(g.format(), "#####\r\n#<  #\r\n#   #\r\n#####\r\n");
}

#[test]
fn glyphs_of_every_kind() {
    let mut g = Grid::new(9, 3).ok().unwrap();
    let kinds = [
        ObjectType::Player(Direction::Up),
        ObjectType::Player(Direction::Down),
        ObjectType::Player(Direction::Right),
        ObjectType::Shot(Direction::Up),
        ObjectType::Shot(Direction::Right),
        ObjectType::Exit,
        ObjectType::Candy,
    ];
    for (i, k) in kinds.iter().enumerate() {
        g = g.place_object(*k, &Point::new(i + 1, 1));
    }
    assert_eq!(g.format(), "#########\r\n#^v>|-XC#\r\n#########\r\n");
}

#[test]
fn random_empty_point_finds_the_only_free_cell() {
    let g = Grid::parse("####\n# X#\n####").ok().unwrap();
    for _ in 0..20 {
        let p = g.random_empty_point().unwrap();
        assert_eq!((p.x, p.y), (1, 1));
    }
    let full = Grid::parse("###\n#X#\n###").ok().unwrap();
    assert!(full.random_empty_point().is_none());
}

#[test]
fn random_empty_point_stays_inside() {
    let g = Grid::new(7, 6).ok().unwrap();
    for _ in 0..200 {
        let p = g.random_empty_point().unwrap();
        assert!(p.x >= 1 && p.x <= 5 && p.y >= 1 && p.y <= 4);
    }
}

#[test]
fn find_exit_locates_x() {
    let g = Grid::parse("#####\n#   #\n# X #\n#####").ok().unwrap();
    let e = g.find_exit().unwrap();
    assert_eq!((e.x, e.y), (2, 2));
    assert!(Grid::new(4, 4).ok().unwrap().find_exit().is_none());
}

#[test]
fn points_step() {
    let p = Point::new(3, 4);
    let up = p.turn_and_step(Direction::Up);
    assert_eq!((up.x, up.y, up.dir), (3, 3, Direction::Up));
    let r = p.turn_and_step(Direction::Right);
    assert_eq!((r.x, r.y), (4, 4));
    let q = Point { x: 3, y: 4, dir: Direction::Left };
    let s = q.step();
    assert_eq!((s.x, s.y, s.dir), (2, 4, Direction::Left));
    let mut m = q;
    m.update(Point::new(7, 8));
    assert_eq!((m.x, m.y, m.dir), (7, 8, Direction::Left));
    assert_eq!(Direction::from_index(0), Direction::Up);
    assert_eq!(Direction::from_index(1), Direction::Down);
    assert_eq!(Direction::from_index(2), Direction::Left);
    assert_eq!(Direction::from_index(3), Direction::Right);
}

#[test]
fn decimal_text_writes_digits() {
    assert_eq!(decimal_text(0), "0");
    assert_eq!(decimal_text(7), "7");
    assert_eq!(decimal_text(1204), "1204");
    assert_eq!(decimal_text(u64::MAX), "18446744073709551615");
}

#[test]
fn place_objects_stamps_in_order_and_skips_bad_cells() {
    let g = Grid::new(5, 4).ok().unwrap();
    let objs = vec![
        (ObjectType::Mob, Point::new(1, 1)),
        (ObjectType::Candy, Point::new(1, 1)),
        (ObjectType::Shot(Direction::Left), Point::new(3, 2)),
        (ObjectType::Mob, Point::new(0, 1)),
        (ObjectType::Candy, Point::new(9, 9)),
    ];
    let g = g.place_objects(objs);
    assert_eq!(g.format(), "#####\r\n#C  #\r\n#  -#\r\n#####\r\n");
}
