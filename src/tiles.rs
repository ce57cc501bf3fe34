//! The tile model: three numbered suits and the honours, in canonical order.
use vstd::prelude::*;

verus! {

/// A tile.
#[derive(Clone, Copy, Debug, PartialEq, Eq, Structural, PartialOrd, Ord, Hash)]
pub enum Tile {
    /// Characters (man), ranked 1 to 9.
    Character(u8),
    /// Circles (pin), ranked 1 to 9.
    Circle(u8),
    /// Bamboos (sou), ranked 1 to 9.
    Bamboo(u8),
    /// A wind or a dragon.
    Honour(Honour),
}

/// An honour tile.
#[derive(Clone, Copy, Debug, PartialEq, Eq, Structural, PartialOrd, Ord, Hash)]
pub enum Honour {
    Wind(Wind),
    Dragon(Dragon),
}

/// The four winds, in seating order.
#[derive(Clone, Copy, Debug, PartialEq, Eq, Structural, PartialOrd, Ord, Hash)]
pub enum Wind {
    East,
    South,
    West,
    North,
}

/// The three dragons.
#[derive(Clone, Copy, Debug, PartialEq, Eq, Structural, PartialOrd, Ord, Hash)]
pub enum Dragon {
    White,
    Green,
    Red,
}

pub open spec fn wind_index(w: Wind) -> int {
    match w {
        Wind::East => 0,
        Wind::South => 1,
        Wind::West => 2,
        Wind::North => 3,
    }
}

pub open spec fn dragon_index(d: Dragon) -> int {
    match d {
        Dragon::White => 0,
        Dragon::Green => 1,
        Dragon::Red => 2,
    }
}

/// Position of a tile in the canonical order: suits before honours, by rank
/// within a suit, winds before dragons. Distinct tiles have distinct keys.
pub open spec fn tile_key(t: Tile) -> int {
    match t {
        Tile::Character(n) => n as int,
        Tile::Circle(n) => 256 + n,
        Tile::Bamboo(n) => 512 + n,
        Tile::Honour(Honour::Wind(w)) => 768 + wind_index(w),
        Tile::Honour(Honour::Dragon(d)) => 772 + dragon_index(d),
    }
}

/// The rank of a numbered tile, 0 for an honour.
pub open spec fn rank(t: Tile) -> int {
    match t {
        Tile::Character(n) => n as int,
        Tile::Circle(n) => n as int,
        Tile::Bamboo(n) => n as int,
        Tile::Honour(_) => 0,
    }
}

pub open spec fn is_suit_tile(t: Tile) -> bool {
    !(t is Honour)
}

/// A tile that a hand can hold: numbered tiles are ranked 1 to 9.
pub open spec fn tile_wf(t: Tile) -> bool {
    is_suit_tile(t) ==> 1 <= rank(t) <= 9
}

pub open spec fn is_terminal_tile(t: Tile) -> bool {
    is_suit_tile(t) && (rank(t) == 1 || rank(t) == 9)
}

/// Terminal or honour.
pub open spec fn is_yaotyu_tile(t: Tile) -> bool {
    !is_suit_tile(t) || is_terminal_tile(t)
}

/// The tile of the same suit ranked one higher, if there is one.
pub open spec fn next_tile(t: Tile) -> Option<Tile> {
    match t {
        Tile::Character(n) => if 1 <= n < 9 { Some(Tile::Character((n + 1) as u8)) } else { None },
        Tile::Circle(n) => if 1 <= n < 9 { Some(Tile::Circle((n + 1) as u8)) } else { None },
        Tile::Bamboo(n) => if 1 <= n < 9 { Some(Tile::Bamboo((n + 1) as u8)) } else { None },
        Tile::Honour(_) => None,
    }
}

pub open spec fn same_suit(a: Tile, b: Tile) -> bool {
    match (a, b) {
        (Tile::Character(_), Tile::Character(_)) => true,
        (Tile::Circle(_), Tile::Circle(_)) => true,
        (Tile::Bamboo(_), Tile::Bamboo(_)) => true,
        (Tile::Honour(_), Tile::Honour(_)) => true,
        _ => false,
    }
}

impl Tile {
    pub fn characters_markers() -> (r: Vec<char>)
        ensures
            r@ == seq!['m', '萬'],
    {
        vec!['m', '萬']
    }

    pub fn circles_markers() -> (r: Vec<char>)
        ensures
            r@ == seq!['p', '筒'],
    {
        vec!['p', '筒']
    }

    pub fn bamboos_markers() -> (r: Vec<char>)
        ensures
            r@ == seq!['s', '索'],
    {
        vec!['s', '索']
    }

    pub fn east_markers() -> (r: Vec<char>)
        ensures
            r@ == seq!['E', '東'],
    {
        vec!['E', '東']
    }

    pub fn south_markers() -> (r: Vec<char>)
        ensures
            r@ == seq!['S', '南'],
    {
        vec!['S', '南']
    }

    pub fn west_markers() -> (r: Vec<char>)
        ensures
            r@ == seq!['W', '西'],
    {
        vec!['W', '西']
    }

    pub fn north_markers() -> (r: Vec<char>)
        ensures
            r@ == seq!['N', '北'],
    {
        vec!['N', '北']
    }

    pub fn white_markers() -> (r: Vec<char>)
        ensures
            r@ == seq!['D', 'P', '白'],
    {
        vec!['D', 'P', '白']
    }

    pub fn green_markers() -> (r: Vec<char>)
        ensures
            r@ == seq!['H', 'F', '發', '発'],
    {
        vec!['H', 'F', '發', '発']
    }

    pub fn red_markers() -> (r: Vec<char>)
        ensures
            r@ == seq!['T', 'C', '中'],
    {
        vec!['T', 'C', '中']
    }

    /// The tile of the same suit one rank higher; `None` for 9s, honours and
    /// ranks outside 1 to 8.
    pub fn next(&self) -> (r: Option<Tile>)
        ensures
            r == next_tile(*self),
    {
        match self {
            Tile::Character(u) => if 1 <= *u && *u < 9 { Some(Tile::Character(*u + 1)) } else { None },
            Tile::Circle(u) => if 1 <= *u && *u < 9 { Some(Tile::Circle(*u + 1)) } else { None },
            Tile::Bamboo(u) => if 1 <= *u && *u < 9 { Some(Tile::Bamboo(*u + 1)) } else { None },
            Tile::Honour(_) => None,
        }
    }

    /// Numbered tile (not an honour).
    pub fn is_suits(&self) -> (r: bool)
        ensures
            r == is_suit_tile(*self),
    {
        match self {
            Tile::Honour(_) => false,
            _ => true,
        }
    }

    pub fn is_honours(&self) -> (r: bool)
        ensures
            r == !is_suit_tile(*self),
    {
        !self.is_suits()
    }

    /// A 1 or a 9 of a suit.
    pub fn is_terminal(&self) -> (r: bool)
        ensures
            r == is_terminal_tile(*self),
    {
        match self {
            Tile::Character(u) => *u == 1 || *u == 9,
            Tile::Circle(u) => *u == 1 || *u == 9,
            Tile::Bamboo(u) => *u == 1 || *u == 9,
            Tile::Honour(_) => false,
        }
    }

    /// Terminal or honour.
    pub fn is_yaotyu(&self) -> (r: bool)
        ensures
            r == is_yaotyu_tile(*self),
    {
        self.is_honours() || self.is_terminal()
    }

    /// Neither terminal nor honour.
    pub fn is_simple(&self) -> (r: bool)
        ensures
            r == !is_yaotyu_tile(*self),
    {
        !self.is_yaotyu()
    }

    /// Rank of a numbered tile, 0 for an honour.
    pub fn rank(&self) -> (r: u8)
        ensures
            r as int == rank(*self),
    {
        match self {
            Tile::Character(u) => *u,
            Tile::Circle(u) => *u,
            Tile::Bamboo(u) => *u,
            Tile::Honour(_) => 0,
        }
    }

    /// Position in the canonical order.
    pub fn key(&self) -> (r: u16)
        ensures
            r as int == tile_key(*self),
    {
        match self {
            Tile::Character(u) => *u as u16,
            Tile::Circle(u) => 256 + *u as u16,
            Tile::Bamboo(u) => 512 + *u as u16,
            Tile::Honour(Honour::Wind(w)) => match w {
                Wind::East => 768,
                Wind::South => 769,
                Wind::West => 770,
                Wind::North => 771,
            },
            Tile::Honour(Honour::Dragon(d)) => match d {
                Dragon::White => 772,
                Dragon::Green => 773,
                Dragon::Red => 774,
            },
        }
    }
}

impl Wind {
    pub fn tile(self) -> (r: Tile)
        ensures
            r == Tile::Honour(Honour::Wind(self)),
    {
        Tile::Honour(Honour::Wind(self))
    }
}

impl Dragon {
    pub fn tile(self) -> (r: Tile)
        ensures
            r == Tile::Honour(Honour::Dragon(self)),
    {
        Tile::Honour(Honour::Dragon(self))
    }
}

} // verus!

verus! {

/// The glyph for a numbered tile of rank `n` (index 0 and out-of-range ranks
/// show the joker).
pub open spec fn suit_glyph(glyphs: Seq<char>, n: u8) -> char {
    if (n as int) < glyphs.len() {
        glyphs[n as int]
    } else {
        '🀪'
    }
}

pub open spec fn character_glyphs() -> Seq<char> {
    seq!['🀪', '🀇', '🀈', '🀉', '🀊', '🀋', '🀌', '🀍', '🀎', '🀏']
}

pub open spec fn circle_glyphs() -> Seq<char> {
    seq!['🀪', '🀙', '🀚', '🀛', '🀜', '🀝', '🀞', '🀟', '🀠', '🀡']
}

pub open spec fn bamboo_glyphs() -> Seq<char> {
    seq!['🀪', '🀐', '🀑', '🀒', '🀓', '🀔', '🀕', '🀖', '🀗', '🀘']
}

/// The Unicode mahjong glyph of a tile.
pub open spec fn glyph_of(t: Tile) -> char {
    match t {
        Tile::Character(n) => suit_glyph(character_glyphs(), n),
        Tile::Circle(n) => suit_glyph(circle_glyphs(), n),
        Tile::Bamboo(n) => suit_glyph(bamboo_glyphs(), n),
        Tile::Honour(Honour::Wind(Wind::East)) => '🀀',
        Tile::Honour(Honour::Wind(Wind::South)) => '🀁',
        Tile::Honour(Honour::Wind(Wind::West)) => '🀂',
        Tile::Honour(Honour::Wind(Wind::North)) => '🀃',
        Tile::Honour(Honour::Dragon(Dragon::White)) => '🀆',
        Tile::Honour(Honour::Dragon(Dragon::Green)) => '🀅',
        Tile::Honour(Honour::Dragon(Dragon::Red)) => '🀄',
    }
}

fn pick_glyph(glyphs: Vec<char>, n: u8) -> (r: char)
    ensures
        r == suit_glyph(glyphs@, n),
{
    if (n as usize) < glyphs.len() {
        glyphs[n as usize]
    } else {
        '🀪'
    }
}

impl Tile {
    /// The Unicode mahjong glyph of the tile.
    pub fn glyph(&self) -> (r: char)
        ensures
            r == glyph_of(*self),
    {
        match self {
            Tile::Character(n) => pick_glyph(vec!['🀪', '🀇', '🀈', '🀉', '🀊', '🀋', '🀌', '🀍', '🀎', '🀏'], *n),
            Tile::Circle(n) => pick_glyph(vec!['🀪', '🀙', '🀚', '🀛', '🀜', '🀝', '🀞', '🀟', '🀠', '🀡'], *n),
            Tile::Bamboo(n) => pick_glyph(vec!['🀪', '🀐', '🀑', '🀒', '🀓', '🀔', '🀕', '🀖', '🀗', '🀘'], *n),
            Tile::Honour(Honour::Wind(w)) => match w {
                Wind::East => '🀀',
                Wind::South => '🀁',
                Wind::West => '🀂',
                Wind::North => '🀃',
            },
            Tile::Honour(Honour::Dragon(d)) => match d {
                Dragon::White => '🀆',
                Dragon::Green => '🀅',
                Dragon::Red => '🀄',
            },
        }
    }
}

} // verus!
