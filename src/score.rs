//! Han, fu, the named score tiers and their point values.
use vstd::prelude::*;

verus! {

/// Han: the doubling unit earned by scoring patterns.
#[derive(Clone, Copy, Debug, PartialEq, Eq, Structural)]
pub struct Han(pub u32);

/// Fu: base points from the structure of a hand.
#[derive(Clone, Copy, Debug, PartialEq, Eq, Structural)]
pub struct Fu(pub u32);

/// The score of one reading of a hand.
#[derive(Clone, Copy, Debug, PartialEq, Eq, Structural)]
pub enum Score {
    Mangan { han: Han },
    Haneman { han: Han },
    Baiman { han: Han },
    Sanbaiman { han: Han },
    Yakuman,
    KazoeYakuman { han: Han },
    MultipleYakuman { multiple: u8 },
    Other { han: Han, fu: Fu },
}

/// The largest fu an ordinary score may carry (far above any real hand).
pub const MAX_FU: u32 = 1_000_000;

/// The tier that `han` and `fu` fall in.
pub open spec fn tier_of(han: Han, fu: Fu) -> Score {
    if han.0 >= 13 {
        Score::KazoeYakuman { han }
    } else if han.0 >= 11 {
        Score::Sanbaiman { han }
    } else if han.0 >= 8 {
        Score::Baiman { han }
    } else if han.0 >= 6 {
        Score::Haneman { han }
    } else if han.0 >= 4 {
        Score::Mangan { han }
    } else {
        Score::Other { han, fu }
    }
}

/// The tier of a yakuman hand worth `multiple` yakuman.
pub open spec fn yakuman_of(multiple: u8) -> Score {
    if multiple == 1 {
        Score::Yakuman
    } else {
        Score::MultipleYakuman { multiple }
    }
}

/// `x` rounded up to a multiple of `m`.
pub open spec fn round_up(x: int, m: int) -> int
    recommends
        m > 0,
{
    ((x + m - 1) / m) * m
}

pub open spec fn pow2(n: nat) -> nat
    decreases n,
{
    if n == 0 {
        1
    } else {
        2 * pow2((n - 1) as nat)
    }
}

/// A score whose point value fits in a `u32`: an ordinary score has under 4
/// han, as `tier_of` gives, and a bounded fu.
pub open spec fn score_wf(s: Score) -> bool {
    match s {
        Score::Other { han, fu } => han.0 < 4 && fu.0 <= MAX_FU,
        _ => true,
    }
}

/// Points won off a discard.
pub open spec fn points(s: Score, is_dealer: bool) -> int {
    match s {
        Score::Mangan { .. } => if is_dealer { 12000 } else { 8000 },
        Score::Haneman { .. } => if is_dealer { 18000 } else { 12000 },
        Score::Baiman { .. } => if is_dealer { 24000 } else { 16000 },
        Score::Sanbaiman { .. } => if is_dealer { 36000 } else { 24000 },
        Score::Yakuman => if is_dealer { 48000 } else { 36000 },
        Score::KazoeYakuman { .. } => if is_dealer { 48000 } else { 36000 },
        Score::MultipleYakuman { multiple } => (if is_dealer { 48000int } else { 36000int }) * multiple,
        Score::Other { han, fu } => (if is_dealer { 6int } else { 4int }) * round_up(fu.0 as int, 10)
            * pow2((han.0 + 2) as nat),
    }
}

pub open spec fn is_named_tier(s: Score) -> bool {
    !(s is Other)
}

proof fn lemma_pow2_small(n: nat)
    requires
        n <= 5,
    ensures
        pow2(n) <= 32,
        pow2(n) >= 1,
{
    lemma_pow2_positive(n);
    lemma_pow2_monotonic(n, 5);
    reveal_with_fuel(pow2, 6);
}

proof fn lemma_pow2_positive(n: nat)
    ensures
        pow2(n) >= 1,
    decreases n,
{
    if n > 0 {
        lemma_pow2_positive((n - 1) as nat);
    }
}

proof fn lemma_pow2_monotonic(a: nat, b: nat)
    requires
        a <= b,
    ensures
        pow2(a) <= pow2(b),
    decreases b,
{
    if a < b {
        lemma_pow2_monotonic(a, (b - 1) as nat);
    }
}

/// Within the ordinary tier, more han never scores less at the same fu.
pub proof fn lemma_ordinary_monotonic_in_han(h1: Han, h2: Han, fu: Fu, is_dealer: bool)
    requires
        h1.0 <= h2.0,
    ensures
        points(Score::Other { han: h1, fu }, is_dealer) <= points(Score::Other { han: h2, fu }, is_dealer),
{
    lemma_pow2_monotonic((h1.0 + 2) as nat, (h2.0 + 2) as nat);
    let c = (if is_dealer { 6int } else { 4int }) * round_up(fu.0 as int, 10);
    assert(c >= 0) by (nonlinear_arith)
        requires c == (if is_dealer { 6int } else { 4int }) * round_up(fu.0 as int, 10), fu.0 >= 0;
    let lo = pow2((h1.0 + 2) as nat);
    let hi = pow2((h2.0 + 2) as nat);
    assert(c * lo <= c * hi) by (nonlinear_arith)
        requires c >= 0, lo <= hi;
}

/// A named tier (mangan and above) outscores every ordinary score of under 4
/// han whose fu, rounded up to ten, is at most 60.
pub proof fn lemma_named_tier_outscores_ordinary(named: Score, han: Han, fu: Fu, is_dealer: bool)
    requires
        is_named_tier(named),
        named is MultipleYakuman ==> named->multiple >= 1,
        han.0 < 4,
        round_up(fu.0 as int, 10) <= 60,
    ensures
        points(Score::Other { han, fu }, is_dealer) < points(named, is_dealer),
{
    lemma_pow2_small((han.0 + 2) as nat);
    let r = round_up(fu.0 as int, 10);
    let p = pow2((han.0 + 2) as nat);
    assert(r >= 0) by (nonlinear_arith)
        requires r == ((fu.0 as int + 9) / 10) * 10, fu.0 >= 0;
    assert(r * p <= 60 * 32) by (nonlinear_arith)
        requires 0 <= r <= 60, 1 <= p <= 32;
    let k = if is_dealer { 6int } else { 4int };
    assert(k * r * p <= k * 1920) by (nonlinear_arith)
        requires r * p <= 1920, k >= 0, r >= 0, p >= 0;
    if let Score::MultipleYakuman { multiple } = named {
        assert((if is_dealer { 48000int } else { 36000int }) * multiple >= 36000) by (nonlinear_arith)
            requires multiple >= 1;
    }
}

impl Score {
    /// The tier for `han` han and `fu` fu.
    pub fn new(han: Han, fu: Fu) -> (r: Score)
        ensures
            r == tier_of(han, fu),
    {
        let han_value = han.0;
        if han_value >= 13 {
            Score::KazoeYakuman { han }
        } else if han_value >= 11 {
            Score::Sanbaiman { han }
        } else if han_value >= 8 {
            Score::Baiman { han }
        } else if han_value >= 6 {
            Score::Haneman { han }
        } else if han_value >= 4 {
            Score::Mangan { han }
        } else {
            Score::Other { han, fu }
        }
    }

    /// The tier of a hand worth `multiple` yakuman.
    pub fn yakuman(multiple: u8) -> (r: Score)
        ensures
            r == yakuman_of(multiple),
    {
        if multiple == 1 {
            Score::Yakuman
        } else {
            Score::MultipleYakuman { multiple }
        }
    }

    /// Japanese name of the tier; empty for an ordinary score.
    pub fn jp_name(&self) -> (r: String)
        ensures
            r@ == jp_name_of(*self),
    {
        match self {
            Score::Other { .. } => String::new(),
            Score::Mangan { .. } => String::from_str("満貫"),
            Score::Haneman { .. } => String::from_str("跳満"),
            Score::Baiman { .. } => String::from_str("倍満"),
            Score::Sanbaiman { .. } => String::from_str("三倍満"),
            Score::Yakuman => String::from_str("役満"),
            Score::KazoeYakuman { .. } => String::from_str("数え役満"),
            Score::MultipleYakuman { multiple } => {
                if *multiple > 3 {
                    String::from_str("マルチ役満")
                } else if *multiple == 3 {
                    String::from_str("トリプル役満")
                } else if *multiple == 2 {
                    String::from_str("ダブル役満")
                } else {
                    String::from_str("役満")
                }
            },
        }
    }

    /// English name of the tier; empty for an ordinary score.
    pub fn en_name(&self) -> (r: String)
        ensures
            r@ == en_name_of(*self),
    {
        match self {
            Score::Other { .. } => String::new(),
            Score::Mangan { .. } => String::from_str("Mangan"),
            Score::Haneman { .. } => String::from_str("Haneman"),
            Score::Baiman { .. } => String::from_str("Baiman"),
            Score::Sanbaiman { .. } => String::from_str("Sanbaiman"),
            Score::Yakuman => String::from_str("Yakuman"),
            Score::KazoeYakuman { .. } => String::from_str("Kazoe Yakuman"),
            Score::MultipleYakuman { multiple } => {
                if *multiple > 3 {
                    String::from_str("Multiple Yakuman")
                } else if *multiple == 3 {
                    String::from_str("Triple Yakuman")
                } else if *multiple == 2 {
                    String::from_str("Double Yakuman")
                } else {
                    String::from_str("Yakuman")
                }
            },
        }
    }

    /// Points won off a discard, before rounding to hundreds.
    pub fn score(&self, is_dealer: bool) -> (r: u32)
        requires
            score_wf(*self),
        ensures
            r as int == points(*self, is_dealer),
            r <= 192_001_920,
    {
        match self {
            Score::Mangan { .. } => if is_dealer { 12000 } else { 8000 },
            Score::Haneman { .. } => if is_dealer { 18000 } else { 12000 },
            Score::Baiman { .. } => if is_dealer { 24000 } else { 16000 },
            Score::Sanbaiman { .. } => if is_dealer { 36000 } else { 24000 },
            Score::Yakuman => if is_dealer { 48000 } else { 36000 },
            Score::KazoeYakuman { .. } => if is_dealer { 48000 } else { 36000 },
            Score::MultipleYakuman { multiple } => {
                let base: u32 = if is_dealer { 48000 } else { 36000 };
                assert(base * (*multiple as u32) <= 48000 * 255) by (nonlinear_arith)
                    requires base <= 48000, *multiple <= 255;
                base * (*multiple as u32)
            },
            Score::Other { han, fu } => {
                let f: u32 = ((fu.0 + 9) / 10) * 10;
                let h: u32 = han.0;
                let p: u32 = if h == 0 { 4 } else if h == 1 { 8 } else if h == 2 { 16 } else { 32 };
                proof {
                    reveal_with_fuel(pow2, 6);
                }
                assert(p as nat == pow2((h + 2) as nat));
                let k: u32 = if is_dealer { 6 } else { 4 };
                assert(k * f * p <= 6 * 1_000_010 * 32) by (nonlinear_arith)
                    requires k <= 6, f <= 1_000_010, p <= 32;
                k * f * p
            },
        }
    }

    /// Points won off a discard, rounded up to a hundred.
    pub fn ron_points(&self, is_dealer: bool) -> (r: u32)
        requires
            score_wf(*self),
        ensures
            r as int == round_up(points(*self, is_dealer), 100),
    {
        let s = self.score(is_dealer);
        ((s + 99) / 100) * 100
    }

    /// What each loser pays on a self-drawn win: `(each non-dealer, dealer)`
    /// for a non-dealer winner (a quarter and a half of the points), and the
    /// third that each of the three pays a dealer in both places. Each share is
    /// rounded up to a hundred on its own.
    pub fn draw_payments(&self, is_dealer: bool) -> (r: (u32, u32))
        requires
            score_wf(*self),
        ensures
            is_dealer ==> r.0 == round_up(points(*self, true) / 3, 100) && r.1 == r.0,
            !is_dealer ==> r.0 == round_up(points(*self, false) / 4, 100) && r.1 == round_up(
                points(*self, false) / 2,
                100,
            ),
    {
        let s = self.score(is_dealer);
        if is_dealer {
            let each = ((s / 3 + 99) / 100) * 100;
            (each, each)
        } else {
            (((s / 4 + 99) / 100) * 100, ((s / 2 + 99) / 100) * 100)
        }
    }
}

pub open spec fn jp_name_of(s: Score) -> Seq<char> {
    match s {
        Score::Other { .. } => Seq::empty(),
        Score::Mangan { .. } => "満貫"@,
        Score::Haneman { .. } => "跳満"@,
        Score::Baiman { .. } => "倍満"@,
        Score::Sanbaiman { .. } => "三倍満"@,
        Score::Yakuman => "役満"@,
        Score::KazoeYakuman { .. } => "数え役満"@,
        Score::MultipleYakuman { multiple } => if multiple > 3 {
            "マルチ役満"@
        } else if multiple == 3 {
            "トリプル役満"@
        } else if multiple == 2 {
            "ダブル役満"@
        } else {
            "役満"@
        },
    }
}

pub open spec fn en_name_of(s: Score) -> Seq<char> {
    match s {
        Score::Other { .. } => Seq::empty(),
        Score::Mangan { .. } => "Mangan"@,
        Score::Haneman { .. } => "Haneman"@,
        Score::Baiman { .. } => "Baiman"@,
        Score::Sanbaiman { .. } => "Sanbaiman"@,
        Score::Yakuman => "Yakuman"@,
        Score::KazoeYakuman { .. } => "Kazoe Yakuman"@,
        Score::MultipleYakuman { multiple } => if multiple > 3 {
            "Multiple Yakuman"@
        } else if multiple == 3 {
            "Triple Yakuman"@
        } else if multiple == 2 {
            "Double Yakuman"@
        } else {
            "Yakuman"@
        },
    }
}

} // verus!
