//! Scoring patterns: situational bonuses, yaku and yakuman, each with its
//! name and the rule that decides it.
use vstd::prelude::*;
use crate::tiles::Tile;
use crate::score::Han;

verus! {

/// Something with a display name.
pub trait YakuAttributes {
    spec fn name_view(&self) -> Seq<char>;

    fn name(&self) -> (r: String)
        ensures
            r@ == self.name_view(),
    ;
}

/// A bonus that the situation of the win grants (ready hand, self-draw...),
/// decided outside the hand.
#[derive(Debug)]
pub struct SituationYaku {
    pub name: String,
    pub han_value: Han,
}

impl SituationYaku {
    pub fn new(name: &str, han_value: u32) -> (r: Self)
        ensures
            r.name@ == name@,
            r.han_value == Han(han_value),
    {
        SituationYaku { name: String::from_str(name), han_value: Han(han_value) }
    }

    pub fn han_value(&self) -> (r: Han)
        ensures
            r == self.han_value,
    {
        self.han_value
    }

    pub fn ready() -> (r: Self)
        ensures
            r.name@ == "立直 / Ready hand"@,
            r.han_value == Han(1),
    {
        Self::new("立直 / Ready hand", 1)
    }

    pub fn nagashi_mangan() -> (r: Self)
        ensures
            r.name@ == "流し満貫 / Nagashi mangan"@,
            r.han_value == Han(4),
    {
        Self::new("流し満貫 / Nagashi mangan", 4)
    }

    pub fn self_pick() -> (r: Self)
        ensures
            r.name@ == "門前清自摸和 / Self-pick"@,
            r.han_value == Han(1),
    {
        Self::new("門前清自摸和 / Self-pick", 1)
    }

    pub fn one_shot() -> (r: Self)
        ensures
            r.name@ == "一発 / One-shot"@,
            r.han_value == Han(1),
    {
        Self::new("一発 / One-shot", 1)
    }

    pub fn last_tile_from_the_wall() -> (r: Self)
        ensures
            r.name@ == "海底摸月 / Last tile from the wall"@,
            r.han_value == Han(1),
    {
        Self::new("海底摸月 / Last tile from the wall", 1)
    }

    pub fn last_discard() -> (r: Self)
        ensures
            r.name@ == "河底撈魚 / Last discard"@,
            r.han_value == Han(1),
    {
        Self::new("河底撈魚 / Last discard", 1)
    }

    pub fn dead_wall_draw() -> (r: Self)
        ensures
            r.name@ == "嶺上開花 / Dead wall draw"@,
            r.han_value == Han(1),
    {
        Self::new("嶺上開花 / Dead wall draw", 1)
    }

    pub fn robbing_a_quad() -> (r: Self)
        ensures
            r.name@ == "槍槓 / Robbing a quad"@,
            r.han_value == Han(1),
    {
        Self::new("槍槓 / Robbing a quad", 1)
    }

    pub fn double_ready() -> (r: Self)
        ensures
            r.name@ == "ダブル立直 / Double ready"@,
            r.han_value == Han(2),
    {
        Self::new("ダブル立直 / Double ready", 2)
    }
}

impl YakuAttributes for SituationYaku {
    open spec fn name_view(&self) -> Seq<char> {
        self.name@
    }

    fn name(&self) -> (r: String) {
        self.name.clone()
    }
}

/// The rule of an ordinary yaku; the honour-tiles rule carries the winds that
/// count for it.
#[derive(Clone, Copy, Debug, PartialEq, Eq, Structural)]
pub enum YakuRule {
    NoPoints,
    OneSetOfIdenticalSequences,
    TwoSetsOfIdenticalSequences,
    SevenPairs,
    AllSimple,
    ThreeColourStraight,
    Straight,
    AllTripletHand,
    ThreeClosedTriplets,
    ThreeColourTriplets,
    HonorTiles { seat_wind: Option<Tile>, prevalent_wind: Option<Tile> },
    TerminalOrHonorInEachSet,
    TerminalInEachSet,
    AllTerminalsAndHonors,
    LittleThreeDragons,
    HalfFlush,
    Flush,
}

/// A yaku that fixes the fu of the hand instead of the structural count.
#[derive(Clone, Copy, Debug, PartialEq, Eq, Structural)]
pub enum FuRule {
    /// 20 fu on self-draw, 30 otherwise.
    NoPoints,
    /// Always 25 fu.
    SevenPairs,
}

/// The rule of a yakuman.
#[derive(Clone, Copy, Debug, PartialEq, Eq, Structural)]
pub enum YakumanRule {
    ThirteenOrphans,
    ThirteenOrphans13Wait,
    BigThreeDragons,
    FourConcealedTriplets,
    LittleFourWinds,
    BigFourWinds,
    AllHonors,
    AllTerminals,
    AllGreen,
    NineGates,
}

/// An ordinary yaku, with the weaker yaku tried in its place when it does not
/// apply.
pub struct HandYaku {
    pub name: String,
    pub rule: YakuRule,
    pub sub: Option<Box<HandYaku>>,
    pub fu: Option<FuRule>,
}

impl HandYaku {
    pub fn new(name: &str, sub: Option<Box<HandYaku>>, rule: YakuRule, fu: Option<FuRule>) -> (r: Self)
        ensures
            r.name@ == name@,
            r.sub == sub,
            r.rule == rule,
            r.fu == fu,
    {
        HandYaku { name: String::from_str(name), sub, rule, fu }
    }
}

impl YakuAttributes for HandYaku {
    open spec fn name_view(&self) -> Seq<char> {
        self.name@
    }

    fn name(&self) -> (r: String) {
        self.name.clone()
    }
}

/// A yakuman, with the weaker yakuman tried in its place when it does not
/// apply.
pub struct Yakuman {
    pub name: String,
    pub rule: YakumanRule,
    pub sub: Option<Box<Yakuman>>,
}

impl Yakuman {
    pub fn new(name: &str, rule: YakumanRule, sub: Option<Box<Yakuman>>) -> (r: Self)
        ensures
            r.name@ == name@,
            r.rule == rule,
            r.sub == sub,
    {
        Yakuman { name: String::from_str(name), rule, sub }
    }
}

impl YakuAttributes for Yakuman {
    open spec fn name_view(&self) -> Seq<char> {
        self.name@
    }

    fn name(&self) -> (r: String) {
        self.name.clone()
    }
}

} // verus!
