//! Terrain kinds and their fixed attributes.

use vstd::prelude::*;

verus! {

/// The terrain kinds a cell of a level can hold.
#[derive(Copy, Clone, PartialEq, Eq, Debug, Hash, Structural)]
pub enum TileType {
    Wall,
    Floor,
    DownStairs,
    UpStairs,
    Fountain,
    Water,
    Lava,
}

/// One cell of one level, as handed to whoever draws the level.
#[derive(Copy, Clone, PartialEq, Eq, Debug, Hash, Structural)]
pub struct Tile {
    pub tile_type: TileType,
    pub x: u32,
    pub y: u32,
    pub level: usize,
}

impl TileType {
    /// Whether an actor may stand on this terrain while the game runs.
    pub open spec fn walkable(self) -> bool {
        self != TileType::Wall && self != TileType::Water
    }

    /// Whether sight passes through this terrain.
    pub open spec fn transparent(self) -> bool {
        self != TileType::Wall && self != TileType::Lava
    }

    /// Whether this terrain stops the flood fill that validates a generated
    /// level. Lava does, although an actor may walk on it.
    pub open spec fn blocks_passage(self) -> bool {
        self == TileType::Wall || self == TileType::Lava || self == TileType::Water
    }

    /// The character that stands for this terrain in the text form of a level.
    pub open spec fn glyph(self) -> char {
        match self {
            TileType::Wall => '#',
            TileType::Floor => '.',
            TileType::DownStairs => '>',
            TileType::UpStairs => '<',
            TileType::Fountain => 'F',
            TileType::Water => ' ',
            TileType::Lava => 'L',
        }
    }

    /// The terrain that `c` stands for, if it is one of the seven glyphs.
    pub open spec fn of_glyph(c: char) -> Option<TileType> {
        if c == '#' {
            Some(TileType::Wall)
        } else if c == '.' {
            Some(TileType::Floor)
        } else if c == '>' {
            Some(TileType::DownStairs)
        } else if c == '<' {
            Some(TileType::UpStairs)
        } else if c == 'F' {
            Some(TileType::Fountain)
        } else if c == ' ' {
            Some(TileType::Water)
        } else if c == 'L' {
            Some(TileType::Lava)
        } else {
            None
        }
    }

    /// The asset path of the picture that shows this terrain.
    pub open spec fn texture_key(self) -> Seq<char> {
        match self {
            TileType::Wall => "dungeon/wall/catacombs_0.png"@,
            TileType::Floor => "dungeon/floor/cobble_blood_1_new.png"@,
            TileType::DownStairs => "dungeon/gateways/stone_stairs_down.png"@,
            TileType::UpStairs => "dungeon/gateways/stone_stairs_up.png"@,
            TileType::Fountain => "dungeon/blue_fountain.png"@,
            TileType::Water => "dungeon/water/deep_water_2.png"@,
            TileType::Lava => "dungeon/floor/lava_0.png"@,
        }
    }

    /// Whether an actor may stand on this terrain while the game runs.
    #[verifier::when_used_as_spec(walkable)]
    pub fn is_walkable(self) -> (r: bool)
        ensures
            r == self.walkable(),
    {
        match self {
            TileType::Wall => false,
            TileType::Floor => true,
            TileType::DownStairs => true,
            TileType::UpStairs => true,
            TileType::Fountain => true,
            TileType::Water => false,
            TileType::Lava => true,
        }
    }

    /// Whether sight passes through this terrain.
    #[verifier::when_used_as_spec(transparent)]
    pub fn is_transparent(self) -> (r: bool)
        ensures
            r == self.transparent(),
    {
        match self {
            TileType::Wall => false,
            TileType::Floor => true,
            TileType::DownStairs => true,
            TileType::UpStairs => true,
            TileType::Fountain => true,
            TileType::Water => true,
            TileType::Lava => false,
        }
    }

    /// Whether this terrain stops the flood fill that validates a level.
    #[verifier::when_used_as_spec(blocks_passage)]
    pub fn is_blocking(self) -> (r: bool)
        ensures
            r == self.blocks_passage(),
    {
        match self {
            TileType::Wall | TileType::Lava | TileType::Water => true,
            _ => false,
        }
    }

    /// The asset path of the picture that shows this terrain.
    pub fn get_texture_str(self) -> (key: &'static str)
        ensures
            key@ == self.texture_key(),
    {
        match self {
            TileType::Wall => "dungeon/wall/catacombs_0.png",
            TileType::Floor => "dungeon/floor/cobble_blood_1_new.png",
            TileType::DownStairs => "dungeon/gateways/stone_stairs_down.png",
            TileType::UpStairs => "dungeon/gateways/stone_stairs_up.png",
            TileType::Fountain => "dungeon/blue_fountain.png",
            TileType::Water => "dungeon/water/deep_water_2.png",
            TileType::Lava => "dungeon/floor/lava_0.png",
        }
    }

    /// The character that stands for this terrain in the text of a level.
    #[verifier::when_used_as_spec(glyph)]
    pub fn to_glyph(self) -> (c: char)
        ensures
            c == self.glyph(),
    {
        match self {
            TileType::Wall => '#',
            TileType::Floor => '.',
            TileType::DownStairs => '>',
            TileType::UpStairs => '<',
            TileType::Fountain => 'F',
            TileType::Water => ' ',
            TileType::Lava => 'L',
        }
    }

    /// The terrain that `c` stands for, if it is one of the seven glyphs.
    #[verifier::when_used_as_spec(of_glyph)]
    pub fn from_glyph(c: char) -> (t: Option<TileType>)
        ensures
            t == TileType::of_glyph(c),
    {
        match c {
            '#' => Some(TileType::Wall),
            '.' => Some(TileType::Floor),
            '>' => Some(TileType::DownStairs),
            '<' => Some(TileType::UpStairs),
            'F' => Some(TileType::Fountain),
            ' ' => Some(TileType::Water),
            'L' => Some(TileType::Lava),
            _ => None,
        }
    }

    /// Reading back the glyph of a terrain gives that terrain.
    pub proof fn lemma_glyph_round_trip(self)
        ensures
            TileType::of_glyph(self.glyph()) == Some(self),
            self.glyph() != '\n',
    {
    }
}

} // verus!
