//! Tile types of a marble level: what each kind of tile is, which sides it
//! opens to, and how two neighbouring tiles fit together.
use vstd::prelude::*;

verus! {

/// The kinds of tile that a marble level is made of.
#[derive(Debug, Clone, Copy, PartialEq, Eq, Structural)]
pub enum TileType {
    /// Empty space / wall / void
    Empty,
    /// Straight path segment
    Straight,
    /// 90-degree curved turn
    Curve90,
    /// T-shaped junction (3-way)
    TJunction,
    /// Y-shaped junction (3-way, smooth angles)
    YJunction,
    /// Cross-shaped junction (4-way)
    CrossJunction,
    /// Slope (connects two elevations differing by 1)
    Slope,
    /// Open platform with no walls
    OpenPlatform,
    /// Static obstacle (pillar, bumper)
    Obstacle,
    /// Merge tile (multiple inputs converge to one output)
    Merge,
    /// One-way gate (directional flow)
    OneWayGate,
    /// Loop-de-loop section
    LoopDeLoop,
    /// Half-pipe section
    HalfPipe,
    /// Launch pad / catapult
    LaunchPad,
    /// Bridge (path goes over another)
    Bridge,
    /// Tunnel (path goes under another)
    Tunnel,
}

impl TileType {
    pub open spec fn spec_is_passable(&self) -> bool {
        !(*self is Empty || *self is Obstacle)
    }

    pub open spec fn spec_has_default_walls(&self) -> bool {
        self is Straight || self is Curve90 || self is TJunction || self is YJunction
            || self is CrossJunction || self is Slope || self is Merge || self is LoopDeLoop
    }

    pub open spec fn spec_to_ascii(&self, has_walls: bool) -> char {
        if self is Empty {
            '#'
        } else if self is Obstacle {
            'O'
        } else if has_walls {
            '.'
        } else {
            '·'
        }
    }

    /// Whether a marble can roll over this tile (it is neither empty nor an obstacle).
    #[verifier::when_used_as_spec(spec_is_passable)]
    pub fn is_passable(&self) -> (r: bool)
        ensures
            r == self.spec_is_passable(),
    {
        match self {
            TileType::Empty | TileType::Obstacle => false,
            _ => true,
        }
    }

    /// Whether a tile of this kind is built with side walls by default.
    #[verifier::when_used_as_spec(spec_has_default_walls)]
    pub fn has_default_walls(&self) -> (r: bool)
        ensures
            r == self.spec_has_default_walls(),
    {
        match self {
            TileType::Straight
            | TileType::Curve90
            | TileType::TJunction
            | TileType::YJunction
            | TileType::CrossJunction
            | TileType::Slope
            | TileType::Merge
            | TileType::LoopDeLoop => true,
            _ => false,
        }
    }

    /// The preview character of this kind: `#` empty, `O` obstacle, `.` walled, `·` open.
    pub fn to_ascii(&self, has_walls: bool) -> (r: char)
        ensures
            r == self.spec_to_ascii(has_walls),
    {
        match (self, has_walls) {
            (TileType::Empty, _) => '#',
            (TileType::Obstacle, _) => 'O',
            (_, true) => '.',
            (_, false) => '·',
        }
    }
}

/// The four sides of a tile, clockwise from North.
#[derive(Debug, Clone, Copy, PartialEq, Eq, Structural)]
pub enum Direction {
    North,
    East,
    South,
    West,
}

/// The side with the given clockwise index (taken mod 4), North being 0.
pub open spec fn dir_of_index(i: int) -> Direction {
    let k = i % 4;
    if k == 0 {
        Direction::North
    } else if k == 1 {
        Direction::East
    } else if k == 2 {
        Direction::South
    } else {
        Direction::West
    }
}

impl Direction {
    /// Clockwise index of the side, North being 0.
    pub open spec fn index(&self) -> int {
        match self {
            Direction::North => 0,
            Direction::East => 1,
            Direction::South => 2,
            Direction::West => 3,
        }
    }

    pub open spec fn spec_opposite(&self) -> Direction {
        dir_of_index(self.index() + 2)
    }

    pub open spec fn spec_rotate(&self, steps: u8) -> Direction {
        dir_of_index(self.index() + steps)
    }

    /// The side facing this one.
    #[verifier::when_used_as_spec(spec_opposite)]
    pub fn opposite(&self) -> (r: Direction)
        ensures
            r == self.spec_opposite(),
    {
        match self {
            Direction::North => Direction::South,
            Direction::East => Direction::West,
            Direction::South => Direction::North,
            Direction::West => Direction::East,
        }
    }

    fn index_u16(&self) -> (r: u16)
        ensures
            r as int == self.index(),
    {
        match self {
            Direction::North => 0,
            Direction::East => 1,
            Direction::South => 2,
            Direction::West => 3,
        }
    }

    /// This side turned clockwise by `steps` quarter turns.
    #[verifier::when_used_as_spec(spec_rotate)]
    pub fn rotate(&self, steps: u8) -> (r: Direction)
        ensures
            r == self.spec_rotate(steps),
    {
        let idx = (self.index_u16() + steps as u16) % 4;
        if idx == 0 {
            Direction::North
        } else if idx == 1 {
            Direction::East
        } else if idx == 2 {
            Direction::South
        } else {
            Direction::West
        }
    }
}

/// The sides that a tile of the given kind opens to before it is rotated.
pub open spec fn base_connections(t: TileType) -> Seq<Direction> {
    match t {
        TileType::Empty | TileType::Obstacle => seq![],
        TileType::TJunction | TileType::YJunction => seq![
            Direction::North,
            Direction::East,
            Direction::South,
        ],
        TileType::CrossJunction | TileType::OpenPlatform => seq![
            Direction::North,
            Direction::East,
            Direction::South,
            Direction::West,
        ],
        TileType::Curve90 => seq![Direction::North, Direction::East],
        TileType::Merge => seq![Direction::North, Direction::East, Direction::West],
        TileType::LaunchPad => seq![Direction::North],
        _ => seq![Direction::North, Direction::South],
    }
}

/// What a marble tile holds, as plain values.
pub struct TileView {
    pub tile_type: TileType,
    pub elevation: i32,
    pub rotation: u8,
    pub has_walls: bool,
    pub metadata: Seq<char>,
}

/// A marble tile with type, elevation, rotation, and wall information
#[derive(Debug, Clone)]
pub struct MarbleTile {
    /// The type of tile
    pub tile_type: TileType,
    /// Elevation level (0 = ground level, can be negative)
    pub elevation: i32,
    /// Rotation in 90° increments (0-3)
    pub rotation: u8,
    /// Whether this tile has walls
    pub has_walls: bool,
    /// Additional metadata for game engines (JSON string)
    pub metadata: String,
}

impl View for MarbleTile {
    type V = TileView;

    open spec fn view(&self) -> TileView {
        TileView {
            tile_type: self.tile_type,
            elevation: self.elevation,
            rotation: self.rotation,
            has_walls: self.has_walls,
            metadata: self.metadata@,
        }
    }
}

/// The tile that `with_params` builds, with empty metadata.
pub open spec fn tile_spec(t: TileType, elevation: i32, rotation: u8, has_walls: bool) -> TileView {
    TileView {
        tile_type: t,
        elevation,
        rotation: (rotation % 4) as u8,
        has_walls,
        metadata: Seq::empty(),
    }
}

/// The sides that a tile opens to: its kind's sides, each turned by its rotation.
pub open spec fn connections_spec(t: TileView) -> Seq<Direction> {
    base_connections(t.tile_type).map_values(|d: Direction| d.spec_rotate(t.rotation))
}

/// Whether `a` fits `b` lying on side `d` of it: both open towards each other, and
/// their elevations are equal, or within one of each other where either is a slope.
pub open spec fn compatible_spec(a: TileView, b: TileView, d: Direction) -> bool {
    &&& connections_spec(a).contains(d)
    &&& connections_spec(b).contains(d.spec_opposite())
    &&& if a.tile_type is Slope || b.tile_type is Slope {
        -1 <= a.elevation - b.elevation <= 1
    } else {
        a.elevation == b.elevation
    }
}

impl MarbleTile {
    /// A new empty tile (wall).
    pub fn empty() -> (r: Self)
        ensures
            r@ == tile_spec(TileType::Empty, 0, 0, false),
    {
        MarbleTile {
            tile_type: TileType::Empty,
            elevation: 0,
            rotation: 0,
            has_walls: false,
            metadata: String::new(),
        }
    }

    /// A new tile of the given type at ground level, with its type's default walls.
    pub fn new(tile_type: TileType) -> (r: Self)
        ensures
            r@ == tile_spec(tile_type, 0, 0, tile_type.spec_has_default_walls()),
    {
        MarbleTile {
            tile_type,
            elevation: 0,
            rotation: 0,
            has_walls: tile_type.has_default_walls(),
            metadata: String::new(),
        }
    }

    /// A tile with the given parameters; the rotation is taken mod 4.
    pub fn with_params(tile_type: TileType, elevation: i32, rotation: u8, has_walls: bool) -> (r:
        Self)
        ensures
            r@ == tile_spec(tile_type, elevation, rotation, has_walls),
    {
        MarbleTile { tile_type, elevation, rotation: rotation % 4, has_walls, metadata: String::new() }
    }

    /// This tile with its metadata replaced.
    pub fn with_metadata(self, metadata: String) -> (r: Self)
        ensures
            r@ == (TileView { metadata: metadata@, ..self@ }),
    {
        let mut t = self;
        t.metadata = metadata;
        t
    }

    /// The sides this tile opens to, given its type and rotation.
    pub fn connections(&self) -> (r: Vec<Direction>)
        ensures
            r@ == connections_spec(self@),
    {
        let base: Vec<Direction> = match self.tile_type {
            TileType::Empty | TileType::Obstacle => vec![],
            TileType::TJunction | TileType::YJunction => vec![
                Direction::North,
                Direction::East,
                Direction::South,
            ],
            TileType::CrossJunction | TileType::OpenPlatform => vec![
                Direction::North,
                Direction::East,
                Direction::South,
                Direction::West,
            ],
            TileType::Curve90 => vec![Direction::North, Direction::East],
            TileType::Merge => vec![Direction::North, Direction::East, Direction::West],
            TileType::LaunchPad => vec![Direction::North],
            _ => vec![Direction::North, Direction::South],
        };
        assert(base@ == base_connections(self.tile_type));
        let mut out: Vec<Direction> = Vec::new();
        let mut i: usize = 0;
        while i < base.len()
            invariant
                i <= base@.len(),
                base@ == base_connections(self.tile_type),
                out@ == base@.subrange(0, i as int).map_values(
                    |d: Direction| d.spec_rotate(self.rotation),
                ),
            decreases base@.len() - i,
        {
            out.push(base[i].rotate(self.rotation));
            i += 1;
            assert(base@.subrange(0, i as int) == base@.subrange(0, i - 1).push(base@[i - 1]));
        }
        assert(base@.subrange(0, i as int) == base@);
        out
    }

    /// Whether this tile opens to side `direction`.
    pub fn connects(&self, direction: Direction) -> (r: bool)
        ensures
            r == connections_spec(self@).contains(direction),
    {
        let conns = self.connections();
        let mut i: usize = 0;
        while i < conns.len()
            invariant
                i <= conns@.len(),
                conns@ == connections_spec(self@),
                forall|k: int| 0 <= k < i ==> conns@[k] != direction,
            decreases conns@.len() - i,
        {
            if conns[i] == direction {
                return true;
            }
            i += 1;
        }
        false
    }

    /// Whether `other`, lying on side `direction` of this tile, fits it.
    pub fn compatible_with(&self, other: &MarbleTile, direction: Direction) -> (r: bool)
        ensures
            r == compatible_spec(self@, other@, direction),
    {
        if !self.connects(direction) {
            return false;
        }
        if !other.connects(direction.opposite()) {
            return false;
        }
        let diff: i64 = self.elevation as i64 - other.elevation as i64;
        match (self.tile_type, other.tile_type) {
            (TileType::Slope, _) | (_, TileType::Slope) => -1 <= diff && diff <= 1,
            _ => diff == 0,
        }
    }

    /// The preview character of this tile.
    pub fn to_ascii(&self) -> (r: char)
        ensures
            r == self.tile_type.spec_to_ascii(self.has_walls),
    {
        self.tile_type.to_ascii(self.has_walls)
    }
}

impl Default for MarbleTile {
    fn default() -> (r: Self)
        ensures
            r@ == tile_spec(TileType::Empty, 0, 0, false),
    {
        Self::empty()
    }
}

} // verus!
