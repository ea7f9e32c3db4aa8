//! The grid model: a walled rectangle of cells, each holding one object.

use vstd::prelude::*;

use crate::rng::random_below;

verus! {

/// A facing direction on the grid.
#[derive(Clone, Copy, Debug, PartialEq, Eq, Hash, Structural)]
pub enum Direction {
    Up,
    Down,
    Left,
    Right,
}

/// The direction that a number in `0..4` stands for.
pub open spec fn direction_of_index(k: int) -> Direction {
    if k == 0 {
        Direction::Up
    } else if k == 1 {
        Direction::Down
    } else if k == 2 {
        Direction::Left
    } else {
        Direction::Right
    }
}

impl Direction {
    /// Maps `0, 1, 2, 3` to `Up, Down, Left, Right`.
    pub fn from_index(k: usize) -> (d: Direction)
        requires
            k < 4,
        ensures
            d == direction_of_index(k as int),
    {
        if k == 0 {
            Direction::Up
        } else if k == 1 {
            Direction::Down
        } else if k == 2 {
            Direction::Left
        } else {
            Direction::Right
        }
    }
}

/// A cell coordinate together with a facing direction.
#[derive(Clone, Copy, Debug, PartialEq, Eq, Hash, Structural)]
pub struct Point {
    pub x: usize,
    pub y: usize,
    pub dir: Direction,
}

/// The coordinates one step away from `(x, y)` in direction `d`.
pub open spec fn step_x(x: int, d: Direction) -> int {
    match d {
        Direction::Left => x - 1,
        Direction::Right => x + 1,
        _ => x,
    }
}

pub open spec fn step_y(y: int, d: Direction) -> int {
    match d {
        Direction::Up => y - 1,
        Direction::Down => y + 1,
        _ => y,
    }
}

/// Whether a step from `p` in direction `d` stays within `usize`.
pub open spec fn can_step(p: Point, d: Direction) -> bool {
    &&& 0 <= step_x(p.x as int, d) <= usize::MAX
    &&& 0 <= step_y(p.y as int, d) <= usize::MAX
}

impl Point {
    /// A point facing up.
    pub fn new(x: usize, y: usize) -> (p: Point)
        ensures
            p == (Point { x, y, dir: Direction::Up }),
    {
        Point { x, y, dir: Direction::Up }
    }

    /// The neighbouring cell in direction `dir`, facing up.
    pub fn turn_and_step(&self, dir: Direction) -> (p: Point)
        requires
            can_step(*self, dir),
        ensures
            p.x == step_x(self.x as int, dir),
            p.y == step_y(self.y as int, dir),
            p.dir == Direction::Up,
    {
        match dir {
            Direction::Up => Point::new(self.x, self.y - 1),
            Direction::Down => Point::new(self.x, self.y + 1),
            Direction::Left => Point::new(self.x - 1, self.y),
            Direction::Right => Point::new(self.x + 1, self.y),
        }
    }

    /// The neighbouring cell in the direction this point faces, keeping that direction.
    pub fn step(&self) -> (p: Point)
        requires
            can_step(*self, self.dir),
        ensures
            p.x == step_x(self.x as int, self.dir),
            p.y == step_y(self.y as int, self.dir),
            p.dir == self.dir,
    {
        self.turn_and_step(self.dir).set_dir(self.dir)
    }

    fn set_dir(self, dir: Direction) -> (p: Point)
        ensures
            p == (Point { dir, ..self }),
    {
        let mut p = self;
        p.dir = dir;
        p
    }

    /// Moves to the coordinates of `new_pos`, keeping the facing direction.
    pub fn update(&mut self, new_pos: Point)
        ensures
            *final(self) == (Point { x: new_pos.x, y: new_pos.y, dir: old(self).dir }),
    {
        self.x = new_pos.x;
        self.y = new_pos.y;
    }
}

/// What a cell holds; players and shots carry the direction they face.
#[derive(Clone, Copy, Debug, PartialEq, Eq, Structural)]
pub enum ObjectType {
    Wall,
    Player(Direction),
    Shot(Direction),
    Exit,
    Mob,
    Candy,
    Empty,
}

/// The contents of one cell: a type and the id of the entity placed there (0 if none).
#[derive(Clone, Copy, Debug, PartialEq, Eq, Structural)]
pub struct MapObject {
    pub id: u64,
    pub type_: ObjectType,
}

/// The contents of a cell in a freshly built grid.
pub open spec fn blank_cell(x: int, y: int, w: int, h: int) -> MapObject {
    if on_ring(x, y, w, h) {
        MapObject { id: 0, type_: ObjectType::Wall }
    } else {
        MapObject { id: 0, type_: ObjectType::Empty }
    }
}

impl MapObject {
    pub open spec fn spec_empty() -> MapObject {
        MapObject { id: 0, type_: ObjectType::Empty }
    }

    pub fn new(type_: ObjectType) -> (o: MapObject)
        ensures
            o == (MapObject { id: 0, type_ }),
    {
        MapObject { id: 0, type_ }
    }
}

/// Why a grid or a world could not be built.
#[derive(Clone, Copy, Debug, PartialEq, Eq, Structural)]
pub enum ConfigError {
    /// Fewer than three rows or columns.
    TooSmall,
    /// A layout holds a character that stands for no template cell.
    UnknownCharacter,
    /// The rows of a layout differ in length.
    RaggedRows,
    /// A cell of the outer ring is not a wall.
    OpenBorder,
    /// A layout has no exit cell.
    NoExit,
    /// There are fewer free cells than objects to place.
    NotEnoughRoom,
}


/// Whether two points name the same cell, whatever they face.
pub open spec fn same_cell(a: Point, b: Point) -> bool {
    a.x == b.x && a.y == b.y
}

/// The display glyph of each kind of cell.
pub open spec fn glyph(t: ObjectType) -> char {
    match t {
        ObjectType::Wall => '#',
        ObjectType::Player(Direction::Up) => '^',
        ObjectType::Player(Direction::Down) => 'v',
        ObjectType::Player(Direction::Left) => '<',
        ObjectType::Player(Direction::Right) => '>',
        ObjectType::Shot(Direction::Up) => '|',
        ObjectType::Shot(Direction::Down) => '|',
        ObjectType::Shot(Direction::Left) => '-',
        ObjectType::Shot(Direction::Right) => '-',
        ObjectType::Exit => 'X',
        ObjectType::Mob => '*',
        ObjectType::Candy => 'C',
        ObjectType::Empty => ' ',
    }
}

/// The glyphs of one row, in order.
pub open spec fn row_text(row: Seq<MapObject>) -> Seq<char>
    decreases row.len(),
{
    if row.len() == 0 {
        Seq::empty()
    } else {
        row_text(row.drop_last()).push(glyph(row.last().type_))
    }
}

/// The rows' glyphs, each row ended by a carriage return and a line feed.
pub open spec fn grid_text(rows: Seq<Seq<MapObject>>) -> Seq<char>
    decreases rows.len(),
{
    if rows.len() == 0 {
        Seq::empty()
    } else {
        grid_text(rows.drop_last()) + row_text(rows.last()) + seq!['\r', '\n']
    }
}

fn glyph_str(t: ObjectType) -> (s: &'static str)
    ensures
        s@ == seq![glyph(t)],
{
    match t {
        ObjectType::Wall => {
            proof { reveal_strlit("#"); }
            "#"
        },
        ObjectType::Player(Direction::Up) => {
            proof { reveal_strlit("^"); }
            "^"
        },
        ObjectType::Player(Direction::Down) => {
            proof { reveal_strlit("v"); }
            "v"
        },
        ObjectType::Player(Direction::Left) => {
            proof { reveal_strlit("<"); }
            "<"
        },
        ObjectType::Player(Direction::Right) => {
            proof { reveal_strlit(">"); }
            ">"
        },
        ObjectType::Shot(Direction::Up) | ObjectType::Shot(Direction::Down) => {
            proof { reveal_strlit("|"); }
            "|"
        },
        ObjectType::Shot(Direction::Left) | ObjectType::Shot(Direction::Right) => {
            proof { reveal_strlit("-"); }
            "-"
        },
        ObjectType::Exit => {
            proof { reveal_strlit("X"); }
            "X"
        },
        ObjectType::Mob => {
            proof { reveal_strlit("*"); }
            "*"
        },
        ObjectType::Candy => {
            proof { reveal_strlit("C"); }
            "C"
        },
        ObjectType::Empty => {
            proof { reveal_strlit(" "); }
            " "
        },
    }
}

/// Whether `c` stands for a template cell.
pub open spec fn known_char(c: char) -> bool {
    c == '#' || c == 'X' || c == ' '
}

/// The template cell that a known character stands for.
pub open spec fn cell_of(c: char) -> MapObject {
    if c == 'X' {
        MapObject { id: 0, type_: ObjectType::Exit }
    } else if c == ' ' {
        MapObject { id: 0, type_: ObjectType::Empty }
    } else {
        MapObject { id: 0, type_: ObjectType::Wall }
    }
}

/// The rows of a layout read so far, and the row still open: a line feed
/// closes a row, a carriage return is skipped.
pub open spec fn split_rows(s: Seq<char>) -> (Seq<Seq<char>>, Seq<char>)
    decreases s.len(),
{
    if s.len() == 0 {
        (Seq::empty(), Seq::empty())
    } else {
        let r = split_rows(s.drop_last());
        let c = s.last();
        if c == '\n' {
            (r.0.push(r.1), Seq::empty())
        } else if c == '\r' {
            r
        } else {
            (r.0, r.1.push(c))
        }
    }
}

/// The rows of a layout; a last row without a line feed counts if it is not empty.
pub open spec fn layout_rows(s: Seq<char>) -> Seq<Seq<char>> {
    let r = split_rows(s);
    if r.1.len() > 0 {
        r.0.push(r.1)
    } else {
        r.0
    }
}

pub open spec fn row_cells(r: Seq<char>) -> Seq<MapObject> {
    r.map_values(|c: char| cell_of(c))
}

/// The cells that a layout's rows stand for.
pub open spec fn layout_cells(s: Seq<char>) -> Seq<Seq<MapObject>> {
    layout_rows(s).map_values(|r: Seq<char>| row_cells(r))
}

/// Whether `s` holds a character that is neither a line break nor a cell.
pub open spec fn has_unknown(s: Seq<char>) -> bool {
    exists|i: int| 0 <= i < s.len() && s[i] != '\n' && s[i] != '\r' && !known_char(#[trigger] s[i])
}

/// Why a layout is refused, if it is: a character that stands for no
/// cell, fewer than three rows or columns, rows of different lengths, or
/// a gap in the outer wall.
pub open spec fn layout_error(s: Seq<char>) -> Option<ConfigError> {
    let rows = layout_cells(s);
    if has_unknown(s) {
        Some(ConfigError::UnknownCharacter)
    } else if rows.len() < 3 {
        Some(ConfigError::TooSmall)
    } else if exists|y: int| 0 <= y < rows.len() && (#[trigger] rows[y]).len() != rows[0].len() {
        Some(ConfigError::RaggedRows)
    } else if rows[0].len() < 3 {
        Some(ConfigError::TooSmall)
    } else if !walled(rows) {
        Some(ConfigError::OpenBorder)
    } else {
        None
    }
}

/// Every cell of `rows` is a wall, an exit or empty.
pub open spec fn plain(rows: Seq<Seq<MapObject>>) -> bool {
    forall|x: int, y: int| 0 <= y < rows.len() && 0 <= x < rows[y].len() ==> {
        let t = (#[trigger] rows[y][x]).type_;
        t == ObjectType::Wall || t == ObjectType::Exit || t == ObjectType::Empty
    }
}

/// Whether a `t` may stand at `p` in a `w` by `h` grid: inside the grid,
/// and off the outer ring unless it is a wall.
pub open spec fn placeable(t: ObjectType, p: Point, w: int, h: int) -> bool {
    &&& p.x < w
    &&& p.y < h
    &&& (t != ObjectType::Wall ==> !on_ring(p.x as int, p.y as int, w, h))
}

/// The index of the last placeable object of `objs` on `(x, y)`, or -1.
pub open spec fn last_placed(objs: Seq<(ObjectType, Point)>, x: int, y: int, w: int, h: int) -> int
    decreases objs.len(),
{
    if objs.len() == 0 {
        -1
    } else if placeable(objs.last().0, objs.last().1, w, h) && objs.last().1.x == x && objs.last().1.y == y {
        objs.len() - 1
    } else {
        last_placed(objs.drop_last(), x, y, w, h)
    }
}

/// The cells `(1, y) .. (n, y)`.
pub open spec fn row_run(y: int, n: int) -> Set<(int, int)>
    decreases n,
{
    if n <= 0 {
        Set::empty()
    } else {
        row_run(y, n - 1).insert((n, y))
    }
}

/// The cells `(x, y)` with `1 <= x <= w - 2` and `1 <= y <= k`.
pub open spec fn rect_run(w: int, k: int) -> Set<(int, int)>
    decreases k,
{
    if k <= 0 {
        Set::empty()
    } else {
        rect_run(w, k - 1) + row_run(k, w - 2)
    }
}

proof fn lemma_row_run(y: int, n: int)
    requires
        n >= 0,
    ensures
        row_run(y, n).finite(),
        row_run(y, n).len() == n,
        forall|c: (int, int)| #[trigger] row_run(y, n).contains(c) <==> (c.1 == y && 1 <= c.0 <= n),
    decreases n,
{
    if n > 0 {
        lemma_row_run(y, n - 1);
    }
}

proof fn lemma_rect_run(w: int, k: int)
    requires
        w >= 2,
        k >= 0,
    ensures
        rect_run(w, k).finite(),
        rect_run(w, k).len() == (w - 2) * k,
        forall|c: (int, int)| #[trigger] rect_run(w, k).contains(c) <==> (1 <= c.0 <= w - 2 && 1 <= c.1 <= k),
    decreases k,
{
    if k > 0 {
        lemma_rect_run(w, k - 1);
        lemma_row_run(k, w - 2);
        assert(rect_run(w, k - 1).disjoint(row_run(k, w - 2)));
        vstd::set_lib::lemma_set_disjoint_lens(rect_run(w, k - 1), row_run(k, w - 2));
        assert((w - 2) * (k - 1) + (w - 2) == (w - 2) * k) by (nonlinear_arith);
    } else {
        assert((w - 2) * k == 0) by (nonlinear_arith)
            requires k == 0;
    }
}

/// The empty interior cells of `rows`.
pub open spec fn free_cells(rows: Seq<Seq<MapObject>>) -> Set<(int, int)> {
    Set::new(|c: (int, int)| {
        &&& interior(c.0, c.1, rows[0].len() as int, rows.len() as int)
        &&& rows[c.1][c.0].type_ == ObjectType::Empty
    })
}

/// A rectangular grid of cells.
pub struct Grid {
    map: Vec<Vec<MapObject>>,
    width: usize,
    height: usize,
}

/// Whether `(x, y)` lies on the outer ring of a `w` by `h` grid.
pub open spec fn on_ring(x: int, y: int, w: int, h: int) -> bool {
    x == 0 || y == 0 || x == w - 1 || y == h - 1
}

/// Whether `(x, y)` lies strictly inside a `w` by `h` grid.
pub open spec fn interior(x: int, y: int, w: int, h: int) -> bool {
    0 < x < w - 1 && 0 < y < h - 1
}

/// Whether `rows` is a rectangle with at least three rows and columns.
pub open spec fn rectangular(rows: Seq<Seq<MapObject>>) -> bool {
    &&& rows.len() >= 3
    &&& rows[0].len() >= 3
    &&& forall|y: int| 0 <= y < rows.len() ==> #[trigger] rows[y].len() == rows[0].len()
}

/// Whether every cell of the outer ring is a wall.
pub open spec fn walled(rows: Seq<Seq<MapObject>>) -> bool {
    forall|x: int, y: int|
        0 <= y < rows.len() && 0 <= x < rows[0].len() && on_ring(x, y, rows[0].len() as int, rows.len() as int)
            ==> (#[trigger] rows[y][x]).type_ == ObjectType::Wall
}

impl View for Grid {
    type V = Seq<Seq<MapObject>>;

    closed spec fn view(&self) -> Seq<Seq<MapObject>> {
        Seq::new(self.map@.len(), |i: int| self.map@[i]@)
    }
}

proof fn lemma_last_placed_range(objs: Seq<(ObjectType, Point)>, w: int, h: int)
    ensures
        forall|x: int, y: int| -1 <= #[trigger] last_placed(objs, x, y, w, h) < objs.len(),
    decreases objs.len(),
{
    if objs.len() > 0 {
        lemma_last_placed_range(objs.drop_last(), w, h);
        assert forall|x: int, y: int| -1 <= #[trigger] last_placed(objs, x, y, w, h) < objs.len() by {
            assert(-1 <= last_placed(objs.drop_last(), x, y, w, h) < objs.len() - 1);
        }
    }
}

impl Grid {
    /// The grid is a walled rectangle of the recorded size.
    pub closed spec fn wf(&self) -> bool {
        &&& rectangular(self@)
        &&& walled(self@)
        &&& self.width == self@[0].len()
        &&& self.height == self@.len()
    }

    /// A well-formed grid is a walled rectangle.
    pub proof fn lemma_shape(&self)
        requires
            self.wf(),
        ensures
            rectangular(self@),
            walled(self@),
    {
    }

    pub open spec fn spec_width(&self) -> int {
        self@[0].len() as int
    }

    pub open spec fn spec_height(&self) -> int {
        self@.len() as int
    }

    /// Whether `(x, y)` is a cell of this grid.
    pub open spec fn in_bounds(&self, x: int, y: int) -> bool {
        0 <= x < self.spec_width() && 0 <= y < self.spec_height()
    }

    /// The grid with the cell `(x, y)` replaced by `o`.
    pub open spec fn with_cell(rows: Seq<Seq<MapObject>>, x: int, y: int, o: MapObject) -> Seq<Seq<MapObject>> {
        rows.update(y, rows[y].update(x, o))
    }

    pub fn width(&self) -> (w: usize)
        requires
            self.wf(),
        ensures
            w == self.spec_width(),
    {
        self.width
    }

    pub fn height(&self) -> (h: usize)
        requires
            self.wf(),
        ensures
            h == self.spec_height(),
    {
        self.height
    }

    /// The object at `pos`.
    pub fn get_object(&self, pos: &Point) -> (o: &MapObject)
        requires
            self.wf(),
            self.in_bounds(pos.x as int, pos.y as int),
        ensures
            *o == self@[pos.y as int][pos.x as int],
    {
        &self.map[pos.y][pos.x]
    }


    /// A `width` by `height` grid: walls on the outer ring, empty cells inside.
    pub fn new(width: usize, height: usize) -> (r: Result<Grid, ConfigError>)
        ensures
            r is Err <==> width < 3 || height < 3,
            r is Err ==> r == Err::<Grid, ConfigError>(ConfigError::TooSmall),
            r matches Ok(g) ==> {
                &&& g.wf()
                &&& g.spec_width() == width
                &&& g.spec_height() == height
                &&& forall|x: int, y: int| 0 <= x < width && 0 <= y < height
                    ==> #[trigger] g@[y][x] == blank_cell(x, y, width as int, height as int)
            },
    {
        if width < 3 || height < 3 {
            return Err(ConfigError::TooSmall);
        }
        let mut map: Vec<Vec<MapObject>> = Vec::new();
        let mut y: usize = 0;
        while y < height
            invariant
                y <= height,
                width >= 3,
                map@.len() == y,
                forall|j: int| 0 <= j < y ==> #[trigger] map@[j]@.len() == width,
                forall|i: int, j: int| 0 <= j < y && 0 <= i < width
                    ==> #[trigger] map@[j]@[i] == blank_cell(i, j, width as int, height as int),
            decreases height - y,
        {
            let mut row: Vec<MapObject> = Vec::new();
            let mut x: usize = 0;
            while x < width
                invariant
                    x <= width,
                    y < height,
                    row@.len() == x,
                    forall|i: int| 0 <= i < x ==> #[trigger] row@[i] == blank_cell(i, y as int, width as int, height as int),
                decreases width - x,
            {
                if x == 0 || y == 0 || x == width - 1 || y == height - 1 {
                    row.push(MapObject::new(ObjectType::Wall));
                } else {
                    row.push(MapObject::new(ObjectType::Empty));
                }
                x = x + 1;
            }
            map.push(row);
            y = y + 1;
        }
        let g = Grid { map, width, height };
        assert(g@.len() == height);
        assert forall|j: int| 0 <= j < height implies #[trigger] g@[j].len() == width by {}
        assert forall|i: int, j: int| 0 <= j < height && 0 <= i < width
            implies #[trigger] g@[j][i] == blank_cell(i, j, width as int, height as int) by {
            assert(map@[j]@[i] == blank_cell(i, j, width as int, height as int));
        }
        Ok(g)
    }



    /// Reads a layout: one line per row, `#` a wall, `X` the exit, a space
    /// an empty cell (the glyphs that `format` writes); carriage returns are skipped.
    pub fn parse(template: &str) -> (r: Result<Grid, ConfigError>)
        ensures
            layout_error(template@) matches Some(e) ==> r == Err::<Grid, ConfigError>(e),
            layout_error(template@) is None ==> (r matches Ok(g) && g.wf() && g@ == layout_cells(template@)),
    {
        let ghost s = template@;
        let n = template.unicode_len();
        let mut rows: Vec<Vec<MapObject>> = Vec::new();
        let mut cur: Vec<MapObject> = Vec::new();
        let mut i: usize = 0;
        while i < n
            invariant
                n == s.len(),
                i <= n,
                s == template@,
                forall|j: int| 0 <= j < i ==> s[j] == '\n' || s[j] == '\r' || known_char(#[trigger] s[j]),
                rows@.len() == split_rows(s.subrange(0, i as int)).0.len(),
                forall|k: int| 0 <= k < rows@.len() ==> #[trigger] rows@[k]@ == row_cells(split_rows(s.subrange(0, i as int)).0[k]),
                cur@ == row_cells(split_rows(s.subrange(0, i as int)).1),
            decreases n - i,
        {
            let c = template.get_char(i);
            assert(s.subrange(0, i + 1).drop_last() =~= s.subrange(0, i as int));
            assert(s.subrange(0, i + 1).last() == c);
            let ghost prev = split_rows(s.subrange(0, i as int));
            if c == '\n' {
                rows.push(cur);
                cur = Vec::new();
                assert(cur@ =~= row_cells(Seq::empty()));
            } else if c == '\r' {
            } else if c == '#' || c == 'X' || c == ' ' {
                let o = if c == 'X' {
                    MapObject::new(ObjectType::Exit)
                } else if c == ' ' {
                    MapObject::new(ObjectType::Empty)
                } else {
                    MapObject::new(ObjectType::Wall)
                };
                cur.push(o);
                assert(cur@ =~= row_cells(prev.1.push(c)));
            } else {
                assert(!known_char(s[i as int]));
                return Err(ConfigError::UnknownCharacter);
            }
            i = i + 1;
        }
        assert(s.subrange(0, i as int) =~= s);
        assert(!has_unknown(s));
        if cur.len() > 0 {
            rows.push(cur);
        }
        let ghost cells = layout_cells(s);
        assert(rows@.len() == cells.len());
        assert forall|k: int| 0 <= k < rows@.len() implies #[trigger] rows@[k]@ == cells[k] by {}
        if rows.len() < 3 {
            return Err(ConfigError::TooSmall);
        }
        let width = rows[0].len();
        let mut y: usize = 0;
        while y < rows.len()
            invariant
                y <= rows@.len(),
                width == rows@[0]@.len(),
                forall|k: int| 0 <= k < y ==> (#[trigger] cells[k]).len() == width,
                forall|k: int| 0 <= k < rows@.len() ==> #[trigger] rows@[k]@ == cells[k],
                rows@.len() == cells.len(),
                s == template@,
                cells == layout_cells(s),
                cells.len() >= 3,
                !has_unknown(s),
            decreases rows@.len() - y,
        {
            if rows[y].len() != width {
                assert(cells[y as int].len() != cells[0].len());
                assert(layout_error(s) == Some(ConfigError::RaggedRows));
                return Err(ConfigError::RaggedRows);
            }
            y = y + 1;
        }
        if width < 3 {
            return Err(ConfigError::TooSmall);
        }
        let height = rows.len();
        let g = Grid { map: rows, width, height };
        assert(g@ =~= cells);
        assert(rectangular(g@));
        assert(layout_error(s) == (if walled(cells) { None } else { Some(ConfigError::OpenBorder) }));
        let mut x: usize = 0;
        while x < width
            invariant
                x <= width,
                g@ == cells,
                rectangular(cells),
                width == cells[0].len(),
                height == cells.len(),
                g.width == width,
                g.height == height,
                g.map@.len() == height,
                forall|k: int| 0 <= k < height ==> #[trigger] g.map@[k]@ == cells[k],
                layout_error(s) == (if walled(cells) { None } else { Some(ConfigError::OpenBorder) }),
                s == template@,
                forall|xx: int, yy: int| 0 <= xx < x && (yy == 0 || yy == height - 1) ==> (#[trigger] cells[yy][xx]).type_ == ObjectType::Wall,
            decreases width - x,
        {
            assert(g.map@[0]@ == cells[0] && g.map@[height - 1]@ == cells[height - 1]);
            if g.map[0][x].type_ != ObjectType::Wall {
                assert(cells[0][x as int].type_ != ObjectType::Wall);
                return Err(ConfigError::OpenBorder);
            }
            if g.map[height - 1][x].type_ != ObjectType::Wall {
                assert(cells[height - 1][x as int].type_ != ObjectType::Wall);
                return Err(ConfigError::OpenBorder);
            }
            x = x + 1;
        }
        let mut y: usize = 0;
        while y < height
            invariant
                y <= height,
                g@ == cells,
                rectangular(cells),
                width == cells[0].len(),
                height == cells.len(),
                g.width == width,
                g.height == height,
                g.map@.len() == height,
                forall|k: int| 0 <= k < height ==> #[trigger] g.map@[k]@ == cells[k],
                layout_error(s) == (if walled(cells) { None } else { Some(ConfigError::OpenBorder) }),
                s == template@,
                forall|xx: int, yy: int| 0 <= xx < width && (yy == 0 || yy == height - 1) ==> (#[trigger] cells[yy][xx]).type_ == ObjectType::Wall,
                forall|xx: int, yy: int| 0 <= yy < y && (xx == 0 || xx == width - 1) ==> (#[trigger] cells[yy][xx]).type_ == ObjectType::Wall,
            decreases height - y,
        {
            assert(g.map@[y as int]@ == cells[y as int]);
            if g.map[y][0].type_ != ObjectType::Wall {
                assert(cells[y as int][0].type_ != ObjectType::Wall);
                return Err(ConfigError::OpenBorder);
            }
            if g.map[y][width - 1].type_ != ObjectType::Wall {
                assert(cells[y as int][width - 1].type_ != ObjectType::Wall);
                return Err(ConfigError::OpenBorder);
            }
            y = y + 1;
        }
        assert(walled(cells));
        Ok(g)
    }


    /// The first exit cell in row-major order, if the grid has one.
    pub fn find_exit(&self) -> (p: Option<Point>)
        requires
            self.wf(),
        ensures
            p matches Some(q) ==> {
                &&& interior(q.x as int, q.y as int, self.spec_width(), self.spec_height())
                &&& self@[q.y as int][q.x as int].type_ == ObjectType::Exit
            },
            p is None ==> forall|x: int, y: int| self.in_bounds(x, y) ==> (#[trigger] self@[y][x]).type_ != ObjectType::Exit,
    {
        let mut y: usize = 0;
        while y < self.height
            invariant
                self.wf(),
                y <= self.spec_height(),
                forall|xx: int, yy: int| 0 <= yy < y && self.in_bounds(xx, yy) ==> (#[trigger] self@[yy][xx]).type_ != ObjectType::Exit,
            decreases self.spec_height() - y,
        {
            let mut x: usize = 0;
            while x < self.width
                invariant
                    self.wf(),
                    y < self.spec_height(),
                    x <= self.spec_width(),
                    forall|xx: int, yy: int| (0 <= yy < y || (yy == y && 0 <= xx < x)) && self.in_bounds(xx, yy)
                        ==> (#[trigger] self@[yy][xx]).type_ != ObjectType::Exit,
                decreases self.spec_width() - x,
            {
                let p = Point::new(x, y);
                if self.get_object(&p).type_ == ObjectType::Exit {
                    return Some(p);
                }
                x = x + 1;
            }
            y = y + 1;
        }
        None
    }


    /// The grid with each object of `objects` placed in turn, a later one
    /// covering an earlier one; objects that cannot stand where they are
    /// given (outside the grid, or on the outer ring) are skipped.
    pub fn place_objects(self, objects: Vec<(ObjectType, Point)>) -> (g: Grid)
        requires
            self.wf(),
        ensures
            g.wf(),
            g@.len() == self@.len(),
            g@[0].len() == self@[0].len(),
            forall|x: int, y: int| self.in_bounds(x, y) ==> #[trigger] g@[y][x] == (
                if last_placed(objects@, x, y, self.spec_width(), self.spec_height()) >= 0 {
                    MapObject { id: 0, type_: objects@[last_placed(objects@, x, y, self.spec_width(), self.spec_height())].0 }
                } else {
                    self@[y][x]
                }),
    {
        let ghost start = self@;
        let w = self.width();
        let h = self.height();
        let mut g = self;
        let mut i: usize = 0;
        while i < objects.len()
            invariant
                g.wf(),
                i <= objects@.len(),
                w == g.spec_width(),
                h == g.spec_height(),
                start.len() == h,
                start[0].len() == w,
                forall|x: int, y: int| 0 <= x < w && 0 <= y < h ==> #[trigger] g@[y][x] == (
                    if last_placed(objects@.subrange(0, i as int), x, y, w as int, h as int) >= 0 {
                        MapObject { id: 0, type_: objects@[last_placed(objects@.subrange(0, i as int), x, y, w as int, h as int)].0 }
                    } else {
                        start[y][x]
                    }),
            decreases objects@.len() - i,
        {
            let (t, p) = objects[i];
            let ghost g0 = g@;
            proof {
                g.lemma_shape();
                assert(objects@.subrange(0, i + 1).drop_last() =~= objects@.subrange(0, i as int));
                lemma_last_placed_range(objects@.subrange(0, i as int), w as int, h as int);
            }
            if p.x < w && p.y < h && (t == ObjectType::Wall || !(p.x == 0 || p.y == 0 || p.x == w - 1 || p.y == h - 1)) {
                g = g.place_object(t, &p);
                assert forall|x: int, y: int| 0 <= x < w && 0 <= y < h implies #[trigger] g@[y][x] == (
                    if last_placed(objects@.subrange(0, i + 1), x, y, w as int, h as int) >= 0 {
                        MapObject { id: 0, type_: objects@[last_placed(objects@.subrange(0, i + 1), x, y, w as int, h as int)].0 }
                    } else {
                        start[y][x]
                    }) by {
                    if y != p.y || x != p.x {
                        assert(g@[y][x] == g0[y][x]);
                    }
                }
            }
            i = i + 1;
        }
        assert(objects@.subrange(0, i as int) =~= objects@);
        g
    }

    /// A copy of this grid.
    pub fn copy(&self) -> (g: Grid)
        requires
            self.wf(),
        ensures
            g.wf(),
            g@ == self@,
    {
        let mut map: Vec<Vec<MapObject>> = Vec::new();
        let mut y: usize = 0;
        while y < self.map.len()
            invariant
                y <= self.map@.len(),
                map@.len() == y,
                forall|j: int| 0 <= j < y ==> #[trigger] map@[j]@ == self@[j],
            decreases self.map@.len() - y,
        {
            let src = &self.map[y];
            let mut row: Vec<MapObject> = Vec::new();
            let mut x: usize = 0;
            while x < src.len()
                invariant
                    x <= src@.len(),
                    row@ == src@.subrange(0, x as int),
                decreases src@.len() - x,
            {
                row.push(src[x]);
                x = x + 1;
                assert(row@ =~= src@.subrange(0, x as int));
            }
            assert(row@ =~= self@[y as int]);
            map.push(row);
            y = y + 1;
        }
        let g = Grid { map, width: self.width, height: self.height };
        assert(g@ =~= self@);
        g
    }

    /// The grid with `type_` placed at `pos`, carrying entity id `id`.
    pub fn place_object_with_id(self, id: u64, type_: ObjectType, pos: &Point) -> (g: Grid)
        requires
            self.wf(),
            self.in_bounds(pos.x as int, pos.y as int),
            type_ != ObjectType::Wall ==> !on_ring(pos.x as int, pos.y as int, self.spec_width(), self.spec_height()),
        ensures
            g.wf(),
            g@ == Grid::with_cell(self@, pos.x as int, pos.y as int, MapObject { id, type_ }),
    {
        let mut g = self;
        g.set_cell_kept(pos.x, pos.y, MapObject { id, type_ });
        g
    }

    /// The grid with `type_` placed at `pos`, with no entity id.
    pub fn place_object(self, type_: ObjectType, pos: &Point) -> (g: Grid)
        requires
            self.wf(),
            self.in_bounds(pos.x as int, pos.y as int),
            type_ != ObjectType::Wall ==> !on_ring(pos.x as int, pos.y as int, self.spec_width(), self.spec_height()),
        ensures
            g.wf(),
            g@ == Grid::with_cell(self@, pos.x as int, pos.y as int, MapObject { id: 0, type_ }),
    {
        self.place_object_with_id(0, type_, pos)
    }

    /// Empties the cell at `pos`.
    pub fn clear_object(&mut self, pos: &Point)
        requires
            old(self).wf(),
            old(self).in_bounds(pos.x as int, pos.y as int),
            !on_ring(pos.x as int, pos.y as int, old(self).spec_width(), old(self).spec_height()),
        ensures
            final(self).wf(),
            final(self)@ == Grid::with_cell(old(self)@, pos.x as int, pos.y as int, MapObject::spec_empty()),
    {
        self.set_cell_kept(pos.x, pos.y, MapObject::new(ObjectType::Empty));
    }

    /// Exchanges the whole contents, type and id, of two cells.
    pub fn swap_objects(&mut self, pos1: &Point, pos2: &Point)
        requires
            old(self).wf(),
            old(self).in_bounds(pos1.x as int, pos1.y as int),
            old(self).in_bounds(pos2.x as int, pos2.y as int),
            !on_ring(pos1.x as int, pos1.y as int, old(self).spec_width(), old(self).spec_height()),
            !on_ring(pos2.x as int, pos2.y as int, old(self).spec_width(), old(self).spec_height()),
        ensures
            final(self).wf(),
            final(self)@ == Grid::with_cell(
                Grid::with_cell(old(self)@, pos1.x as int, pos1.y as int, old(self)@[pos2.y as int][pos2.x as int]),
                pos2.x as int,
                pos2.y as int,
                old(self)@[pos1.y as int][pos1.x as int],
            ),
    {
        let tmp = *self.get_object(pos1);
        let other = *self.get_object(pos2);
        self.set_cell_kept(pos1.x, pos1.y, other);
        self.set_cell_kept(pos2.x, pos2.y, tmp);
    }


    /// The grid as text: one glyph per cell, each row ended by `"\r\n"`.
    pub fn format(&self) -> (text: String)
        requires
            self.wf(),
        ensures
            text@ == grid_text(self@),
    {
        let mut text = String::new();
        let mut y: usize = 0;
        while y < self.map.len()
            invariant
                y <= self.map@.len(),
                text@ == grid_text(self@.subrange(0, y as int)),
            decreases self.map@.len() - y,
        {
            let row = &self.map[y];
            let mut x: usize = 0;
            while x < row.len()
                invariant
                    x <= row@.len(),
                    y < self.map@.len(),
                    row@ == self@[y as int],
                    text@ == grid_text(self@.subrange(0, y as int)) + row_text(row@.subrange(0, x as int)),
                decreases row@.len() - x,
            {
                let g = glyph_str(row[x].type_);
                text.append(g);
                assert(row@.subrange(0, x + 1).drop_last() =~= row@.subrange(0, x as int));
                x = x + 1;
            }
            proof { reveal_strlit("\r\n"); }
            text.append("\r\n");
            assert(row@.subrange(0, x as int) =~= row@);
            assert(self@.subrange(0, y + 1).drop_last() =~= self@.subrange(0, y as int));
            y = y + 1;
        }
        assert(self@.subrange(0, y as int) =~= self@);
        text
    }


    /// Whether `(x, y)` is an interior cell that holds nothing.
    pub open spec fn is_free(&self, x: int, y: int) -> bool {
        &&& interior(x, y, self.spec_width(), self.spec_height())
        &&& self@[y][x].type_ == ObjectType::Empty
    }

    /// The empty interior cells.
    pub open spec fn free_set(&self) -> Set<(int, int)> {
        free_cells(self@)
    }


    /// A fresh `w` by `h` grid with one interior cell turned into the exit
    /// has `(w - 2) * (h - 2) - 1` free cells.
    pub proof fn lemma_free_count_with_exit(&self, w: int, h: int, e: Point)
        requires
            self.wf(),
            self.spec_width() == w,
            self.spec_height() == h,
            interior(e.x as int, e.y as int, w, h),
            forall|x: int, y: int| 0 <= x < w && 0 <= y < h && !(x == e.x && y == e.y)
                ==> #[trigger] self@[y][x] == blank_cell(x, y, w, h),
            self@[e.y as int][e.x as int].type_ == ObjectType::Exit,
        ensures
            self.free_set().len() == (w - 2) * (h - 2) - 1,
    {
        lemma_rect_run(w, h - 2);
        let r = rect_run(w, h - 2);
        let c = (e.x as int, e.y as int);
        assert(self.free_set() =~= r.remove(c));
    }

    /// Every empty interior cell, each once, in row-major order.
    pub fn empty_points(&self) -> (pts: Vec<Point>)
        requires
            self.wf(),
        ensures
            forall|i: int| 0 <= i < pts@.len() ==> self.is_free((#[trigger] pts@[i]).x as int, pts@[i].y as int)
                && pts@[i].dir == Direction::Up,
            forall|x: int, y: int| #[trigger] self.is_free(x, y) ==> exists|i: int|
                0 <= i < pts@.len() && pts@[i].x == x && pts@[i].y == y,
            forall|i: int, j: int| 0 <= i < j < pts@.len() ==> !same_cell(#[trigger] pts@[i], #[trigger] pts@[j]),
            pts@.len() == self.free_set().len(),
    {
        let mut pts: Vec<Point> = Vec::new();
        let mut y: usize = 1;
        while y + 1 < self.height
            invariant
                self.wf(),
                1 <= y <= self.spec_height() - 1,
                forall|i: int| 0 <= i < pts@.len() ==> self.is_free((#[trigger] pts@[i]).x as int, pts@[i].y as int)
                    && pts@[i].dir == Direction::Up && pts@[i].y < y,
                forall|x: int, yy: int| #[trigger] self.is_free(x, yy) && yy < y ==> exists|i: int|
                    0 <= i < pts@.len() && pts@[i].x == x && pts@[i].y == yy,
                forall|i: int, j: int| 0 <= i < j < pts@.len() ==> !same_cell(#[trigger] pts@[i], #[trigger] pts@[j]),
            decreases self.spec_height() - y,
        {
            let mut x: usize = 1;
            let ghost start = pts@.len();
            while x + 1 < self.width
                invariant
                    self.wf(),
                    1 <= y < self.spec_height() - 1,
                    1 <= x <= self.spec_width() - 1,
                    start <= pts@.len(),
                    forall|i: int| 0 <= i < pts@.len() ==> self.is_free((#[trigger] pts@[i]).x as int, pts@[i].y as int)
                        && pts@[i].dir == Direction::Up && pts@[i].y <= y,
                    forall|i: int| start <= i < pts@.len() ==> (#[trigger] pts@[i]).y == y && pts@[i].x < x,
                    forall|i: int| 0 <= i < start ==> (#[trigger] pts@[i]).y < y,
                    forall|xx: int, yy: int| #[trigger] self.is_free(xx, yy) && (yy < y || (yy == y && xx < x)) ==> exists|i: int|
                        0 <= i < pts@.len() && pts@[i].x == xx && pts@[i].y == yy,
                    forall|i: int, j: int| 0 <= i < j < pts@.len() ==> !same_cell(#[trigger] pts@[i], #[trigger] pts@[j]),
                decreases self.spec_width() - x,
            {
                let o = self.get_object(&Point::new(x, y));
                if o.type_ == ObjectType::Empty {
                    let ghost before = pts@;
                    pts.push(Point::new(x, y));
                    assert forall|xx: int, yy: int| #[trigger] self.is_free(xx, yy) && (yy < y || (yy == y && xx < x + 1)) implies exists|i: int|
                        0 <= i < pts@.len() && pts@[i].x == xx && pts@[i].y == yy by {
                        if xx == x && yy == y {
                            assert(pts@[pts@.len() - 1].x == xx);
                        } else {
                            let i = choose|i: int| 0 <= i < before.len() && before[i].x == xx && before[i].y == yy;
                            assert(pts@[i] == before[i]);
                        }
                    }
                }
                x = x + 1;
            }
            assert forall|xx: int, yy: int| #[trigger] self.is_free(xx, yy) && yy < y + 1 implies exists|i: int|
                0 <= i < pts@.len() && pts@[i].x == xx && pts@[i].y == yy by {
                assert(xx < x);
            }
            y = y + 1;
        }
        assert forall|xx: int, yy: int| #[trigger] self.is_free(xx, yy) implies exists|i: int|
            0 <= i < pts@.len() && pts@[i].x == xx && pts@[i].y == yy by {
            assert(yy < y);
        }
        proof {
            let cs = pts@.map_values(|p: Point| (p.x as int, p.y as int));
            assert forall|i: int, j: int| 0 <= i < cs.len() && 0 <= j < cs.len() && i != j implies cs[i] != cs[j] by {
                if i < j {
                    assert(!same_cell(pts@[i], pts@[j]));
                } else {
                    assert(!same_cell(pts@[j], pts@[i]));
                }
            }
            assert(cs.no_duplicates());
            cs.unique_seq_to_set();
            assert forall|c: (int, int)| #[trigger] cs.to_set().contains(c) <==> self.free_set().contains(c) by {
                if self.is_free(c.0, c.1) {
                    let i = choose|i: int| 0 <= i < pts@.len() && pts@[i].x == c.0 && pts@[i].y == c.1;
                    assert(cs[i] == c);
                }
                if cs.to_set().contains(c) {
                    let i = choose|i: int| 0 <= i < cs.len() && cs[i] == c;
                    assert(self.is_free(pts@[i].x as int, pts@[i].y as int));
                }
            }
            assert(cs.to_set() =~= self.free_set());
        }
        pts
    }

    /// A uniformly drawn empty interior cell, facing up; `None` when there is none.
    pub fn random_empty_point(&self) -> (p: Option<Point>)
        requires
            self.wf(),
        ensures
            p is None <==> forall|x: int, y: int| !#[trigger] self.is_free(x, y),
            p matches Some(q) ==> self.is_free(q.x as int, q.y as int) && q.dir == Direction::Up,
    {
        let pts = self.empty_points();
        if pts.len() == 0 {
            assert forall|x: int, y: int| !#[trigger] self.is_free(x, y) by {
                if self.is_free(x, y) {
                    let i = choose|i: int| 0 <= i < pts@.len() && pts@[i].x == x && pts@[i].y == y;
                }
            }
            None
        } else {
            let k = random_below(0, pts.len());
            let q = pts[k];
            assert(self.is_free(q.x as int, q.y as int));
            Some(q)
        }
    }

    fn set_cell_kept(&mut self, x: usize, y: usize, o: MapObject)
        requires
            old(self).wf(),
            old(self).in_bounds(x as int, y as int),
            o.type_ != ObjectType::Wall ==> !on_ring(x as int, y as int, old(self).spec_width(), old(self).spec_height()),
        ensures
            final(self).wf(),
            final(self)@ == Grid::with_cell(old(self)@, x as int, y as int, o),
    {
        self.set_cell(x, y, o);
        assert(self@[0].len() == old(self)@[0].len());
    }

    fn set_cell(&mut self, x: usize, y: usize, o: MapObject)
        requires
            old(self).wf(),
            old(self).in_bounds(x as int, y as int),
        ensures
            final(self)@ == Grid::with_cell(old(self)@, x as int, y as int, o),
            final(self).width == old(self).width,
            final(self).height == old(self).height,
    {
        let mut row = self.map.remove(y);
        assert(row@ == old(self)@[y as int]);
        row.set(x, o);
        self.map.insert(y, row);
        assert(self@ =~= Grid::with_cell(old(self)@, x as int, y as int, o));
    }
}

} // verus!
