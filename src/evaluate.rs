//! Wait classification with fu, the yaku and yakuman rules, and the
//! evaluation of every reading of a hand.
use vstd::prelude::*;
use crate::tiles::{Tile, Honour, Dragon, Wind, is_yaotyu_tile, rank};
use crate::groups::{
    canonical,
    Meld, OpenSet, MeldKind, OpenKind, Tiles, Sets, copy_tiles, contains_tile, count_tile,
    set_fu, open_set_fu, any_yaotyu, is_flat_seq, is_sequential_seq, tiles_wf, Hand, HandError,
};
use crate::parse::{
    Node, NodeView, MeldView, OpenView, ParsedHand, nodes_view, melds_view, opens_view, decompose,
    open_tiles, lemma_leaf_tile_total, leaf_holds_fourteen, melds_nonempty, lemma_total_ge_len,
    expand, root_nodes, seven_pairs_node, adjacent_pairs,
};
use crate::notation::{parse_hand, lemma_parse_hand_wf_result};
use crate::score::{Fu, Han, Score, tier_of, yakuman_of, points, score_wf, MAX_FU};
use crate::yaku::{HandYaku, Yakuman, FuRule, SituationYaku, YakuRule, YakumanRule, YakuAttributes};

verus! {

/// The shape of the wait that the winning tile completed.
#[derive(Clone, Copy, Debug, PartialEq, Eq, Structural)]
pub enum WaitKind {
    /// Two-sided run wait.
    Ryanmen,
    /// Middle-gap wait.
    Kanchan,
    /// Closed run wait at a terminal.
    Penchan,
    /// Single wait on the pair.
    Tanki,
    /// Matched-pair wait.
    Shanpon,
}

/// One candidate: a reading, the shape of its wait, its fu and the winning
/// tile.
#[derive(Debug)]
pub enum Wait {
    Ryanmen(Node, Fu, Tile),
    Kanchan(Node, Fu, Tile),
    Penchan(Node, Fu, Tile),
    Tanki(Node, Fu, Tile),
    Shanpon(Node, Fu, Tile),
}

pub struct WaitView {
    pub kind: WaitKind,
    pub node: NodeView,
    pub fu: Fu,
    pub winning: Tile,
}

impl View for Wait {
    type V = WaitView;

    open spec fn view(&self) -> WaitView {
        match self {
            Wait::Ryanmen(n, f, w) => WaitView { kind: WaitKind::Ryanmen, node: n@, fu: *f, winning: *w },
            Wait::Kanchan(n, f, w) => WaitView { kind: WaitKind::Kanchan, node: n@, fu: *f, winning: *w },
            Wait::Penchan(n, f, w) => WaitView { kind: WaitKind::Penchan, node: n@, fu: *f, winning: *w },
            Wait::Tanki(n, f, w) => WaitView { kind: WaitKind::Tanki, node: n@, fu: *f, winning: *w },
            Wait::Shanpon(n, f, w) => WaitView { kind: WaitKind::Shanpon, node: n@, fu: *f, winning: *w },
        }
    }
}

pub open spec fn waits_view(v: Seq<Wait>) -> Seq<WaitView> {
    v.map_values(|w: Wait| w@)
}

/// Every declared meld is a concealed quad.
pub open spec fn all_concealed(os: Seq<OpenView>) -> bool {
    forall|j: int| 0 <= j < os.len() ==> (#[trigger] os[j]).0 == OpenKind::ConcealedKong
}

/// No declared meld but concealed quads.
pub open spec fn closed_spec(n: NodeView) -> bool {
    all_concealed(n.open_sets)
}

/// A reading of at most sixteen concealed and sixteen declared melds, as
/// every reading of a fourteen-tile hand is.
pub open spec fn node_bounded(n: NodeView) -> bool {
    n.sets.len() <= 16 && n.open_sets.len() <= 16
}

pub open spec fn sets_fu(sets: Seq<MeldView>) -> int
    decreases sets.len(),
{
    if sets.len() == 0 {
        0
    } else {
        sets_fu(sets.drop_last()) + set_fu(sets.last())
    }
}

pub open spec fn opens_fu(os: Seq<OpenView>) -> int
    decreases os.len(),
{
    if os.len() == 0 {
        0
    } else {
        opens_fu(os.drop_last()) + open_set_fu(os.last())
    }
}

/// A pair of a tile worth fu: a dragon, or the round or seat wind.
pub open spec fn valuable_pair(n: NodeView, prevalent: Option<Tile>, seat: Option<Tile>) -> bool {
    n.sets.len() > 0 && n.sets[0].0 == MeldKind::Pair && n.sets[0].1.len() >= 2 && {
        let a = n.sets[0].1[0];
        let b = n.sets[0].1[1];
        a == b && ((prevalent == Some(a)) || (seat == Some(a)) || a is Honour && a->Honour_0 is Dragon)
    }
}

/// Fu of a reading before the wait: the base (22 on self-draw, 30 when
/// closed, else 20), every meld's fu, and 2 for a valuable pair.
pub open spec fn base_fu(n: NodeView, draw: bool, prevalent: Option<Tile>, seat: Option<Tile>) -> int {
    (if draw { 22int } else if closed_spec(n) { 30int } else { 20int }) + sets_fu(n.sets) + opens_fu(n.open_sets)
        + if valuable_pair(n, prevalent, seat) { 2int } else { 0int }
}

/// The wait that a meld holding the winning tile gives, with the fu it adds.
pub open spec fn wait_of_meld(m: MeldView, winning: Tile) -> (WaitKind, int) {
    if m.0 == MeldKind::Pair || m.0 == MeldKind::Body {
        (WaitKind::Tanki, 2)
    } else if is_flat_seq(m.1) {
        (WaitKind::Shanpon, 0)
    } else if m.1.len() > 0 && (winning == m.1[0] || winning == m.1.last()) {
        if any_yaotyu(m.1) && !is_yaotyu_tile(winning) {
            (WaitKind::Penchan, 2)
        } else {
            (WaitKind::Ryanmen, 0)
        }
    } else {
        (WaitKind::Kanchan, 2)
    }
}

/// The candidates of a reading from the melds `n.sets[..k]`: one for each
/// meld that holds the winning tile, in order.
pub open spec fn waits_upto(
    n: NodeView,
    k: int,
    winning: Tile,
    fu: int,
) -> Seq<WaitView>
    decreases k,
{
    if k <= 0 || k > n.sets.len() {
        Seq::empty()
    } else {
        let m = n.sets[k - 1];
        waits_upto(n, k - 1, winning, fu) + if count_tile(m.1, winning) > 0 {
            let (kind, extra) = wait_of_meld(m, winning);
            seq![WaitView { kind, node: n, fu: Fu((fu + extra) as u32), winning }]
        } else {
            Seq::empty()
        }
    }
}

pub open spec fn waits_of(
    n: NodeView,
    winning: Tile,
    draw: bool,
    prevalent: Option<Tile>,
    seat: Option<Tile>,
) -> Seq<WaitView> {
    waits_upto(n, n.sets.len() as int, winning, base_fu(n, draw, prevalent, seat))
}

proof fn lemma_sets_fu_bound(sets: Seq<MeldView>)
    ensures
        0 <= sets_fu(sets) <= 8 * sets.len(),
    decreases sets.len(),
{
    if sets.len() > 0 {
        lemma_sets_fu_bound(sets.drop_last());
    }
}

proof fn lemma_opens_fu_bound(os: Seq<OpenView>)
    ensures
        0 <= opens_fu(os) <= 32 * os.len(),
    decreases os.len(),
{
    if os.len() > 0 {
        lemma_opens_fu_bound(os.drop_last());
    }
}

/// Whether `v` holds at least `k` copies of `t`.
pub fn count_at_least(v: &Vec<Tile>, t: Tile, k: usize) -> (r: bool)
    ensures
        r == (count_tile(v@, t) >= k),
{
    let mut n: usize = 0;
    let mut i: usize = 0;
    while i < v.len()
        invariant
            i <= v.len(),
            n == count_tile(v@.subrange(0, i as int), t),
            n <= i,
        decreases v.len() - i,
    {
        assert(v@.subrange(0, i + 1).drop_last() == v@.subrange(0, i as int));
        if v[i] == t {
            n += 1;
        }
        i += 1;
    }
    assert(v@.subrange(0, v.len() as int) == v@);
    n >= k
}

pub fn is_closed(open: &Vec<OpenSet>) -> (r: bool)
    ensures
        r == all_concealed(opens_view(open@)),
{
    let ghost ov = opens_view(open@);
    let mut i: usize = 0;
    while i < open.len()
        invariant
            i <= open.len(),
            ov == opens_view(open@),
            forall|j: int| 0 <= j < i ==> (#[trigger] ov[j]).0 == OpenKind::ConcealedKong,
        decreases open.len() - i,
    {
        assert(ov[i as int] == open@[i as int]@);
        if !matches!(open[i], OpenSet::ConcealedKong(_)) {
            return false;
        }
        i += 1;
    }
    true
}

fn copy_node(n: &Node) -> (r: Node)
    ensures
        r@ == n@,
{
    let mut sets: Vec<Meld> = Vec::new();
    let mut i: usize = 0;
    while i < n.sets.len()
        invariant
            i <= n.sets.len(),
            sets.len() == i,
            forall|j: int| 0 <= j < i ==> (#[trigger] sets@[j])@ == n.sets@[j]@,
        decreases n.sets.len() - i,
    {
        sets.push(n.sets[i].duplicate());
        i += 1;
    }
    let mut open: Vec<OpenSet> = Vec::new();
    let mut i: usize = 0;
    while i < n.open_sets.len()
        invariant
            i <= n.open_sets.len(),
            open.len() == i,
            forall|j: int| 0 <= j < i ==> (#[trigger] open@[j])@ == n.open_sets@[j]@,
        decreases n.open_sets.len() - i,
    {
        open.push(n.open_sets[i].duplicate());
        i += 1;
    }
    let r = Node { remaining: copy_tiles(&n.remaining), open_sets: open, sets };
    assert(r@.sets =~= n@.sets);
    assert(r@.open_sets =~= n@.open_sets);
    r
}

fn is_valuable(t: Tile, prevalent: &Option<Tile>, seat: &Option<Tile>) -> (r: bool)
    ensures
        r == ((*prevalent == Some(t)) || (*seat == Some(t)) || t is Honour && t->Honour_0 is Dragon),
{
    let p = match prevalent {
        Some(x) => *x == t,
        None => false,
    };
    let s = match seat {
        Some(x) => *x == t,
        None => false,
    };
    let d = match t {
        Tile::Honour(Honour::Dragon(_)) => true,
        _ => false,
    };
    p || s || d
}

impl Wait {
    /// Every candidate of a reading: one per concealed meld holding the
    /// winning tile, each with the fu of the reading and of its wait.
    pub fn from(node: &Node, winning: Tile, draw: bool, prevalent_wind: Option<Tile>, seat_wind: Option<Tile>) -> (r: Vec<Wait>)
        requires
            node_bounded(node@),
        ensures
            waits_view(r@) == waits_of(node@, winning, draw, prevalent_wind, seat_wind),
    {
        let ghost nv = node@;
        let closed = is_closed(&node.open_sets);
        let mut fu: u32 = if draw { 22 } else if closed { 30 } else { 20 };
        let mut i: usize = 0;
        assert(nv.sets.subrange(0, 0) =~= Seq::<MeldView>::empty());
        while i < node.sets.len()
            invariant
                i <= node.sets.len(),
                nv == node@,
                node_bounded(nv),
                fu as int == (if draw { 22int } else if closed_spec(nv) { 30int } else { 20int }) + sets_fu(nv.sets.subrange(0, i as int)),
                fu <= 30 + 8 * i,
            decreases node.sets.len() - i,
        {
            proof {
                assert(nv.sets.subrange(0, i + 1).drop_last() =~= nv.sets.subrange(0, i as int));
                assert(nv.sets.subrange(0, i + 1).last() == node.sets@[i as int]@);
            }
            fu = fu + node.sets[i].fu().0;
            i += 1;
        }
        assert(nv.sets.subrange(0, node.sets.len() as int) =~= nv.sets);
        let mut i: usize = 0;
        assert(nv.open_sets.subrange(0, 0) =~= Seq::<OpenView>::empty());
        while i < node.open_sets.len()
            invariant
                i <= node.open_sets.len(),
                nv == node@,
                node_bounded(nv),
                fu as int == (if draw { 22int } else if closed_spec(nv) { 30int } else { 20int }) + sets_fu(nv.sets) + opens_fu(nv.open_sets.subrange(0, i as int)),
                fu <= 30 + 8 * 16 + 32 * i,
            decreases node.open_sets.len() - i,
        {
            proof {
                assert(nv.open_sets.subrange(0, i + 1).drop_last() =~= nv.open_sets.subrange(0, i as int));
                assert(nv.open_sets.subrange(0, i + 1).last() == node.open_sets@[i as int]@);
            }
            fu = fu + node.open_sets[i].fu().0;
            i += 1;
        }
        assert(nv.open_sets.subrange(0, node.open_sets.len() as int) =~= nv.open_sets);
        if node.sets.len() > 0 {
            match &node.sets[0] {
                Meld::Pair(head) => {
                    if head.len() >= 2 && head[0] == head[1] && is_valuable(head[0], &prevalent_wind, &seat_wind) {
                        fu = fu + 2;
                    }
                },
                _ => {},
            }
        }
        assert(fu as int == base_fu(nv, draw, prevalent_wind, seat_wind));
        let mut candidates: Vec<Wait> = Vec::new();
        let mut k: usize = 0;
        while k < node.sets.len()
            invariant
                k <= node.sets.len(),
                nv == node@,
                fu as int == base_fu(nv, draw, prevalent_wind, seat_wind),
                fu <= 30 + 8 * 16 + 32 * 16 + 2,
                waits_view(candidates@) == waits_upto(nv, k as int, winning, fu as int),
            decreases node.sets.len() - k,
        {
            let set = &node.sets[k];
            let tiles = set.tiles();
            if count_at_least(tiles, winning, 1) {
                let n = copy_node(node);
                let w = match set {
                    Meld::Pair(_) | Meld::Body(_) => Wait::Tanki(n, Fu(fu + 2), winning),
                    _ => {
                        if tiles.is_flat() {
                            Wait::Shanpon(n, Fu(fu), winning)
                        } else if tiles.len() > 0 && (winning == tiles[0] || winning == tiles[tiles.len() - 1]) {
                            if tiles.contains_yaotyu() && !winning.is_yaotyu() {
                                Wait::Penchan(n, Fu(fu + 2), winning)
                            } else {
                                Wait::Ryanmen(n, Fu(fu), winning)
                            }
                        } else {
                            Wait::Kanchan(n, Fu(fu + 2), winning)
                        }
                    },
                };
                proof {
                    assert(waits_view(candidates@.push(w)) =~= waits_view(candidates@).push(w@));
                }
                candidates.push(w);
            }
            k += 1;
        }
        candidates
    }

    pub fn winning(&self) -> (r: Tile)
        ensures
            r == self@.winning,
    {
        match self {
            Wait::Ryanmen(_, _, w) => *w,
            Wait::Kanchan(_, _, w) => *w,
            Wait::Penchan(_, _, w) => *w,
            Wait::Tanki(_, _, w) => *w,
            Wait::Shanpon(_, _, w) => *w,
        }
    }

    /// No declared meld but concealed quads.
    pub fn closed(&self) -> (r: bool)
        ensures
            r == closed_spec(self@.node),
    {
        is_closed(&self.node().open_sets)
    }

    pub fn node(&self) -> (r: &Node)
        ensures
            r@ == self@.node,
    {
        match self {
            Wait::Ryanmen(n, _, _) => n,
            Wait::Kanchan(n, _, _) => n,
            Wait::Penchan(n, _, _) => n,
            Wait::Tanki(n, _, _) => n,
            Wait::Shanpon(n, _, _) => n,
        }
    }

    pub fn fu(&self) -> (r: Fu)
        ensures
            r == self@.fu,
    {
        match self {
            Wait::Ryanmen(_, f, _) => *f,
            Wait::Kanchan(_, f, _) => *f,
            Wait::Penchan(_, f, _) => *f,
            Wait::Tanki(_, f, _) => *f,
            Wait::Shanpon(_, f, _) => *f,
        }
    }

    pub fn kind(&self) -> (r: WaitKind)
        ensures
            r == self@.kind,
    {
        match self {
            Wait::Ryanmen(..) => WaitKind::Ryanmen,
            Wait::Kanchan(..) => WaitKind::Kanchan,
            Wait::Penchan(..) => WaitKind::Penchan,
            Wait::Tanki(..) => WaitKind::Tanki,
            Wait::Shanpon(..) => WaitKind::Shanpon,
        }
    }
}

} // verus!

verus! {

/// A numbered suit.
#[derive(Clone, Copy, Debug, PartialEq, Eq, Structural)]
pub enum Suit {
    Character,
    Circle,
    Bamboo,
}

pub open spec fn in_suit(t: Tile, s: Suit) -> bool {
    match s {
        Suit::Character => t is Character,
        Suit::Circle => t is Circle,
        Suit::Bamboo => t is Bamboo,
    }
}

/// The tile of suit `s` ranked `r`.
pub open spec fn suit_tile(s: Suit, r: u8) -> Tile {
    match s {
        Suit::Character => Tile::Character(r),
        Suit::Circle => Tile::Circle(r),
        Suit::Bamboo => Tile::Bamboo(r),
    }
}

fn make_suit_tile(s: Suit, r: u8) -> (t: Tile)
    ensures
        t == suit_tile(s, r),
{
    match s {
        Suit::Character => Tile::Character(r),
        Suit::Circle => Tile::Circle(r),
        Suit::Bamboo => Tile::Bamboo(r),
    }
}

fn tile_in_suit(t: Tile, s: Suit) -> (r: bool)
    ensures
        r == in_suit(t, s),
{
    match (s, t) {
        (Suit::Character, Tile::Character(_)) => true,
        (Suit::Circle, Tile::Circle(_)) => true,
        (Suit::Bamboo, Tile::Bamboo(_)) => true,
        _ => false,
    }
}

pub open spec fn is_green(t: Tile) -> bool {
    t == Tile::Bamboo(2) || t == Tile::Bamboo(3) || t == Tile::Bamboo(4) || t == Tile::Bamboo(6)
        || t == Tile::Bamboo(8) || t == Tile::Honour(Honour::Dragon(Dragon::Green))
}

/// A test that a meld's tiles pass.
#[derive(Clone, Copy, Debug, PartialEq, Eq, Structural)]
pub enum MeldTest {
    NoYaotyu,
    HasYaotyu,
    HasTerminal,
    YaotyuFlat,
    Flat,
    AllHonor,
    AllTerminal,
    SuitOrHonor(Suit),
    InSuit(Suit),
    Green,
}

pub open spec fn meld_test(p: MeldTest, s: Seq<Tile>) -> bool {
    match p {
        MeldTest::NoYaotyu => !any_yaotyu(s),
        MeldTest::HasYaotyu => any_yaotyu(s),
        MeldTest::HasTerminal => crate::groups::any_terminal(s),
        MeldTest::YaotyuFlat => any_yaotyu(s) && is_flat_seq(s),
        MeldTest::Flat => is_flat_seq(s),
        MeldTest::AllHonor => crate::groups::all_honor(s),
        MeldTest::AllTerminal => crate::groups::all_terminal(s),
        MeldTest::SuitOrHonor(u) => (forall|i: int| 0 <= i < s.len() ==> in_suit(#[trigger] s[i], u))
            || crate::groups::all_honor(s),
        MeldTest::InSuit(u) => forall|i: int| 0 <= i < s.len() ==> in_suit(#[trigger] s[i], u),
        MeldTest::Green => forall|i: int| 0 <= i < s.len() ==> is_green(#[trigger] s[i]),
    }
}

/// Every concealed and every declared meld of `n` passes `p`.
pub open spec fn all_pass(n: NodeView, p: MeldTest) -> bool {
    (forall|i: int| 0 <= i < n.sets.len() ==> meld_test(p, (#[trigger] n.sets[i]).1))
        && (forall|j: int| 0 <= j < n.open_sets.len() ==> meld_test(p, (#[trigger] n.open_sets[j]).1))
}

fn all_in_suit(v: &Vec<Tile>, u: Suit) -> (r: bool)
    ensures
        r == (forall|i: int| 0 <= i < v@.len() ==> in_suit(#[trigger] v@[i], u)),
{
    let mut i: usize = 0;
    while i < v.len()
        invariant
            i <= v.len(),
            forall|j: int| 0 <= j < i ==> in_suit(#[trigger] v@[j], u),
        decreases v.len() - i,
    {
        if !tile_in_suit(v[i], u) {
            return false;
        }
        i += 1;
    }
    true
}

fn all_green(v: &Vec<Tile>) -> (r: bool)
    ensures
        r == (forall|i: int| 0 <= i < v@.len() ==> is_green(#[trigger] v@[i])),
{
    let greens = vec![
        Tile::Bamboo(2),
        Tile::Bamboo(3),
        Tile::Bamboo(4),
        Tile::Bamboo(6),
        Tile::Bamboo(8),
        Dragon::Green.tile(),
    ];
    let mut i: usize = 0;
    while i < v.len()
        invariant
            i <= v.len(),
            greens@ == seq![
                Tile::Bamboo(2),
                Tile::Bamboo(3),
                Tile::Bamboo(4),
                Tile::Bamboo(6),
                Tile::Bamboo(8),
                Tile::Honour(Honour::Dragon(Dragon::Green)),
            ],
            forall|j: int| 0 <= j < i ==> is_green(#[trigger] v@[j]),
        decreases v.len() - i,
    {
        let c = contains_tile(&greens, v[i]);
        proof {
            if c {
                let k = choose|k: int| 0 <= k < greens@.len() && greens@[k] == v@[i as int];
                assert(0 <= k < 6);
            } else {
                assert(greens@[0] == Tile::Bamboo(2));
                assert(greens@[1] == Tile::Bamboo(3));
                assert(greens@[2] == Tile::Bamboo(4));
                assert(greens@[3] == Tile::Bamboo(6));
                assert(greens@[4] == Tile::Bamboo(8));
                assert(greens@[5] == Tile::Honour(Honour::Dragon(Dragon::Green)));
            }
        }
        if !c {
            return false;
        }
        i += 1;
    }
    true
}

fn tiles_pass(p: MeldTest, v: &Vec<Tile>) -> (r: bool)
    ensures
        r == meld_test(p, v@),
{
    match p {
        MeldTest::NoYaotyu => !v.contains_yaotyu(),
        MeldTest::HasYaotyu => v.contains_yaotyu(),
        MeldTest::HasTerminal => v.contains_terminal(),
        MeldTest::YaotyuFlat => v.contains_yaotyu() && v.is_flat(),
        MeldTest::Flat => v.is_flat(),
        MeldTest::AllHonor => crate::groups::seq_all_honor(v),
        MeldTest::AllTerminal => v.all_terminal(),
        MeldTest::SuitOrHonor(u) => all_in_suit(v, u) || crate::groups::seq_all_honor(v),
        MeldTest::InSuit(u) => all_in_suit(v, u),
        MeldTest::Green => all_green(v),
    }
}

/// Whether every meld of `node` passes `p`.
pub fn node_all_pass(node: &Node, p: MeldTest) -> (r: bool)
    ensures
        r == all_pass(node@, p),
{
    let ghost n = node@;
    let mut i: usize = 0;
    while i < node.sets.len()
        invariant
            i <= node.sets.len(),
            n == node@,
            forall|k: int| 0 <= k < i ==> meld_test(p, (#[trigger] n.sets[k]).1),
        decreases node.sets.len() - i,
    {
        assert(n.sets[i as int] == node.sets@[i as int]@);
        if !tiles_pass(p, node.sets[i].tiles()) {
            return false;
        }
        i += 1;
    }
    let mut j: usize = 0;
    while j < node.open_sets.len()
        invariant
            j <= node.open_sets.len(),
            n == node@,
            forall|k: int| 0 <= k < n.sets.len() ==> meld_test(p, (#[trigger] n.sets[k]).1),
            forall|k: int| 0 <= k < j ==> meld_test(p, (#[trigger] n.open_sets[k]).1),
        decreases node.open_sets.len() - j,
    {
        assert(n.open_sets[j as int] == node.open_sets@[j as int]@);
        if !tiles_pass(p, node.open_sets[j].tiles()) {
            return false;
        }
        j += 1;
    }
    true
}

/// Some concealed or declared meld of `n` holds at least `k` copies of `t`.
pub open spec fn has_group(n: NodeView, t: Tile, k: nat) -> bool {
    (exists|i: int| 0 <= i < n.sets.len() && count_tile((#[trigger] n.sets[i]).1, t) >= k)
        || (exists|j: int| 0 <= j < n.open_sets.len() && count_tile((#[trigger] n.open_sets[j]).1, t) >= k)
}

fn node_has_group(node: &Node, t: Tile, k: usize) -> (r: bool)
    ensures
        r == has_group(node@, t, k as nat),
{
    let ghost n = node@;
    let mut i: usize = 0;
    while i < node.sets.len()
        invariant
            i <= node.sets.len(),
            n == node@,
            forall|m: int| 0 <= m < i ==> count_tile((#[trigger] n.sets[m]).1, t) < k,
        decreases node.sets.len() - i,
    {
        assert(n.sets[i as int] == node.sets@[i as int]@);
        if count_at_least(node.sets[i].tiles(), t, k) {
            return true;
        }
        i += 1;
    }
    let mut j: usize = 0;
    while j < node.open_sets.len()
        invariant
            j <= node.open_sets.len(),
            n == node@,
            forall|m: int| 0 <= m < n.sets.len() ==> count_tile((#[trigger] n.sets[m]).1, t) < k,
            forall|m: int| 0 <= m < j ==> count_tile((#[trigger] n.open_sets[m]).1, t) < k,
        decreases node.open_sets.len() - j,
    {
        assert(n.open_sets[j as int] == node.open_sets@[j as int]@);
        if count_at_least(node.open_sets[j].tiles(), t, k) {
            return true;
        }
        j += 1;
    }
    false
}

/// Flat concealed melds (the pair included).
pub open spec fn count_flat(sets: Seq<MeldView>) -> nat
    decreases sets.len(),
{
    if sets.len() == 0 {
        0
    } else {
        count_flat(sets.drop_last()) + if is_flat_seq(sets.last().1) { 1nat } else { 0nat }
    }
}

pub open spec fn count_concealed_kongs(os: Seq<OpenView>) -> nat
    decreases os.len(),
{
    if os.len() == 0 {
        0
    } else {
        count_concealed_kongs(os.drop_last()) + if os.last().0 == OpenKind::ConcealedKong { 1nat } else { 0nat }
    }
}

/// Flat concealed melds plus concealed quads.
pub open spec fn closed_triplets(n: NodeView) -> nat {
    count_flat(n.sets) + count_concealed_kongs(n.open_sets)
}

fn node_closed_triplets(node: &Node) -> (r: usize)
    requires
        node_bounded(node@),
    ensures
        r == closed_triplets(node@),
{
    let ghost n = node@;
    let mut c: usize = 0;
    let mut i: usize = 0;
    while i < node.sets.len()
        invariant
            i <= node.sets.len(),
            n == node@,
            c == count_flat(n.sets.subrange(0, i as int)),
            c <= i,
            node_bounded(n),
        decreases node.sets.len() - i,
    {
        assert(n.sets.subrange(0, i + 1).drop_last() =~= n.sets.subrange(0, i as int));
        assert(n.sets.subrange(0, i + 1).last() == node.sets@[i as int]@);
        if node.sets[i].tiles().is_flat() {
            c += 1;
        }
        i += 1;
    }
    assert(n.sets.subrange(0, node.sets.len() as int) =~= n.sets);
    let mut d: usize = 0;
    let mut j: usize = 0;
    while j < node.open_sets.len()
        invariant
            j <= node.open_sets.len(),
            n == node@,
            d == count_concealed_kongs(n.open_sets.subrange(0, j as int)),
            d <= j,
            c <= 16,
            node_bounded(n),
        decreases node.open_sets.len() - j,
    {
        assert(n.open_sets.subrange(0, j + 1).drop_last() =~= n.open_sets.subrange(0, j as int));
        assert(n.open_sets.subrange(0, j + 1).last() == node.open_sets@[j as int]@);
        if matches!(node.open_sets[j], OpenSet::ConcealedKong(_)) {
            d += 1;
        }
        j += 1;
    }
    assert(n.open_sets.subrange(0, node.open_sets.len() as int) =~= n.open_sets);
    c + d
}

} // verus!

verus! {

/// Three consecutive tiles of one suit.
pub open spec fn is_run(s: Seq<Tile>) -> bool {
    s.len() == 3 && is_sequential_seq(s)
}

pub open spec fn meld_run_starts(ms: Seq<MeldView>) -> Seq<Tile>
    decreases ms.len(),
{
    if ms.len() == 0 {
        Seq::empty()
    } else {
        meld_run_starts(ms.drop_last()) + if is_run(ms.last().1) { seq![ms.last().1[0]] } else { Seq::empty() }
    }
}

pub open spec fn open_run_starts(os: Seq<OpenView>) -> Seq<Tile>
    decreases os.len(),
{
    if os.len() == 0 {
        Seq::empty()
    } else {
        open_run_starts(os.drop_last()) + if is_run(os.last().1) { seq![os.last().1[0]] } else { Seq::empty() }
    }
}

/// The lowest tile of every run of a reading, concealed ones first.
pub open spec fn run_starts(n: NodeView) -> Seq<Tile> {
    meld_run_starts(n.sets) + open_run_starts(n.open_sets)
}

/// A triplet or quad of a numbered tile is identified by that tile.
pub open spec fn numbered_group(s: Seq<Tile>) -> bool {
    s.len() > 0 && !(s[0] is Honour)
}

pub open spec fn meld_triplet_tiles(ms: Seq<MeldView>) -> Seq<Tile>
    decreases ms.len(),
{
    if ms.len() == 0 {
        Seq::empty()
    } else {
        meld_triplet_tiles(ms.drop_last()) + if ms.last().0 == MeldKind::Pung && numbered_group(ms.last().1) {
            seq![ms.last().1[0]]
        } else {
            Seq::empty()
        }
    }
}

pub open spec fn open_triplet_tiles(os: Seq<OpenView>) -> Seq<Tile>
    decreases os.len(),
{
    if os.len() == 0 {
        Seq::empty()
    } else {
        open_triplet_tiles(os.drop_last()) + if os.last().0 != OpenKind::Chow && numbered_group(os.last().1) {
            seq![os.last().1[0]]
        } else {
            Seq::empty()
        }
    }
}

/// The tile of every numbered triplet or quad of a reading.
pub open spec fn triplet_tiles(n: NodeView) -> Seq<Tile> {
    meld_triplet_tiles(n.sets) + open_triplet_tiles(n.open_sets)
}

/// `l` holds rank `r` in all three suits.
pub open spec fn all_three_suits(l: Seq<Tile>, r: u8) -> bool {
    l.contains(Tile::Character(r)) && l.contains(Tile::Circle(r)) && l.contains(Tile::Bamboo(r))
}

/// At least three entries, and the rank of one of them present in every suit.
pub open spec fn three_colours(l: Seq<Tile>) -> bool {
    l.len() >= 3 && exists|i: int| 0 <= i < l.len() && all_three_suits(l, rank(#[trigger] l[i]) as u8)
}

/// At least three runs, with 1-2-3, 4-5-6 and 7-8-9 of one suit among them.
pub open spec fn full_straight(l: Seq<Tile>) -> bool {
    l.len() >= 3 && exists|u: Suit|
        l.contains(#[trigger] suit_tile(u, 1)) && l.contains(suit_tile(u, 4)) && l.contains(suit_tile(u, 7))
}

fn push_if(out: &mut Vec<Tile>, cond: bool, t: Tile)
    ensures
        final(out)@ == old(out)@ + if cond { seq![t] } else { Seq::<Tile>::empty() },
{
    if cond {
        out.push(t);
    }
    assert(out@ =~= old(out)@ + if cond { seq![t] } else { Seq::<Tile>::empty() });
}

fn node_run_starts(node: &Node) -> (r: Vec<Tile>)
    ensures
        r@ == run_starts(node@),
{
    let ghost n = node@;
    let mut out: Vec<Tile> = Vec::new();
    let mut i: usize = 0;
    while i < node.sets.len()
        invariant
            i <= node.sets.len(),
            n == node@,
            out@ == meld_run_starts(n.sets.subrange(0, i as int)),
        decreases node.sets.len() - i,
    {
        let ghost sub = n.sets.subrange(0, i + 1);
        assert(sub.drop_last() =~= n.sets.subrange(0, i as int));
        assert(sub.last() == node.sets@[i as int]@);
        let tiles = node.sets[i].tiles();
        let run = tiles.len() == 3 && tiles.is_sequential();
        let first = if tiles.len() > 0 { tiles[0] } else { Tile::Character(0) };
        push_if(&mut out, run, first);
        i += 1;
    }
    assert(n.sets.subrange(0, node.sets.len() as int) =~= n.sets);
    let ghost mid = out@;
    let mut j: usize = 0;
    while j < node.open_sets.len()
        invariant
            j <= node.open_sets.len(),
            n == node@,
            mid == meld_run_starts(n.sets),
            out@ == mid + open_run_starts(n.open_sets.subrange(0, j as int)),
        decreases node.open_sets.len() - j,
    {
        let ghost sub = n.open_sets.subrange(0, j + 1);
        assert(sub.drop_last() =~= n.open_sets.subrange(0, j as int));
        assert(sub.last() == node.open_sets@[j as int]@);
        let tiles = node.open_sets[j].tiles();
        let run = tiles.len() == 3 && tiles.is_sequential();
        let first = if tiles.len() > 0 { tiles[0] } else { Tile::Character(0) };
        push_if(&mut out, run, first);
        assert(out@ =~= mid + open_run_starts(sub));
        j += 1;
    }
    assert(n.open_sets.subrange(0, node.open_sets.len() as int) =~= n.open_sets);
    out
}

fn node_triplet_tiles(node: &Node) -> (r: Vec<Tile>)
    ensures
        r@ == triplet_tiles(node@),
{
    let ghost n = node@;
    let mut out: Vec<Tile> = Vec::new();
    let mut i: usize = 0;
    while i < node.sets.len()
        invariant
            i <= node.sets.len(),
            n == node@,
            out@ == meld_triplet_tiles(n.sets.subrange(0, i as int)),
        decreases node.sets.len() - i,
    {
        let ghost sub = n.sets.subrange(0, i + 1);
        assert(sub.drop_last() =~= n.sets.subrange(0, i as int));
        assert(sub.last() == node.sets@[i as int]@);
        let tiles = node.sets[i].tiles();
        let first = if tiles.len() > 0 { tiles[0] } else { Tile::Character(0) };
        let ok = matches!(node.sets[i], Meld::Pung(_)) && tiles.len() > 0 && !first.is_honours();
        push_if(&mut out, ok, first);
        i += 1;
    }
    assert(n.sets.subrange(0, node.sets.len() as int) =~= n.sets);
    let ghost mid = out@;
    let mut j: usize = 0;
    while j < node.open_sets.len()
        invariant
            j <= node.open_sets.len(),
            n == node@,
            mid == meld_triplet_tiles(n.sets),
            out@ == mid + open_triplet_tiles(n.open_sets.subrange(0, j as int)),
        decreases node.open_sets.len() - j,
    {
        let ghost sub = n.open_sets.subrange(0, j + 1);
        assert(sub.drop_last() =~= n.open_sets.subrange(0, j as int));
        assert(sub.last() == node.open_sets@[j as int]@);
        let tiles = node.open_sets[j].tiles();
        let first = if tiles.len() > 0 { tiles[0] } else { Tile::Character(0) };
        let ok = !matches!(node.open_sets[j], OpenSet::Chow(_)) && tiles.len() > 0 && !first.is_honours();
        push_if(&mut out, ok, first);
        assert(out@ =~= mid + open_triplet_tiles(sub));
        j += 1;
    }
    assert(n.open_sets.subrange(0, node.open_sets.len() as int) =~= n.open_sets);
    out
}

fn has_three_colours(l: &Vec<Tile>) -> (r: bool)
    ensures
        r == three_colours(l@),
{
    if l.len() < 3 {
        return false;
    }
    let mut i: usize = 0;
    while i < l.len()
        invariant
            i <= l.len(),
            forall|k: int| 0 <= k < i ==> !all_three_suits(l@, rank(#[trigger] l@[k]) as u8),
        decreases l.len() - i,
    {
        let r = l[i].rank();
        if contains_tile(l, Tile::Character(r)) && contains_tile(l, Tile::Circle(r)) && contains_tile(l, Tile::Bamboo(r)) {
            return true;
        }
        i += 1;
    }
    false
}

fn has_full_straight(l: &Vec<Tile>) -> (r: bool)
    ensures
        r == full_straight(l@),
{
    if l.len() < 3 {
        return false;
    }
    let c = contains_tile(l, Tile::Character(1)) && contains_tile(l, Tile::Character(4)) && contains_tile(l, Tile::Character(7));
    let p = contains_tile(l, Tile::Circle(1)) && contains_tile(l, Tile::Circle(4)) && contains_tile(l, Tile::Circle(7));
    let b = contains_tile(l, Tile::Bamboo(1)) && contains_tile(l, Tile::Bamboo(4)) && contains_tile(l, Tile::Bamboo(7));
    proof {
        assert(suit_tile(Suit::Character, 1) == Tile::Character(1));
        assert(suit_tile(Suit::Circle, 1) == Tile::Circle(1));
        assert(suit_tile(Suit::Bamboo, 1) == Tile::Bamboo(1));
        if full_straight(l@) {
            let u = choose|u: Suit|
                l@.contains(#[trigger] suit_tile(u, 1)) && l@.contains(suit_tile(u, 4)) && l@.contains(suit_tile(u, 7));
            match u {
                Suit::Character => {},
                Suit::Circle => {},
                Suit::Bamboo => {},
            }
        }
    }
    c || p || b
}

} // verus!

verus! {

/// How many of `sets` equal `m`.
pub open spec fn count_meld(sets: Seq<MeldView>, m: MeldView) -> nat
    decreases sets.len(),
{
    if sets.len() == 0 {
        0
    } else {
        count_meld(sets.drop_last(), m) + if sets.last() == m { 1nat } else { 0nat }
    }
}

pub open spec fn count_chows(sets: Seq<MeldView>) -> nat
    decreases sets.len(),
{
    if sets.len() == 0 {
        0
    } else {
        count_chows(sets.drop_last()) + if sets.last().0 == MeldKind::Chow { 1nat } else { 0nat }
    }
}

/// Some run occurs exactly twice among the concealed melds.
pub open spec fn one_identical_pair(sets: Seq<MeldView>) -> bool {
    exists|i: int| 0 <= i < sets.len() && (#[trigger] sets[i]).0 == MeldKind::Chow && count_meld(sets, sets[i]) == 2
}

/// Four concealed runs, each occurring exactly twice.
pub open spec fn two_identical_pairs(sets: Seq<MeldView>) -> bool {
    count_chows(sets) == 4 && forall|i: int|
        0 <= i < sets.len() && (#[trigger] sets[i]).0 == MeldKind::Chow ==> count_meld(sets, sets[i]) == 2
}

fn same_meld(a: &Meld, b: &Meld) -> (r: bool)
    ensures
        r == (a@ == b@),
{
    if a.kind() != b.kind() {
        return false;
    }
    let x = a.tiles();
    let y = b.tiles();
    if x.len() != y.len() {
        return false;
    }
    let mut i: usize = 0;
    while i < x.len()
        invariant
            i <= x.len(),
            x.len() == y.len(),
            x@ == a@.1,
            y@ == b@.1,
            forall|k: int| 0 <= k < i ==> x@[k] == y@[k],
        decreases x.len() - i,
    {
        if x[i] != y[i] {
            assert(a@.1[i as int] != b@.1[i as int]);
            return false;
        }
        i += 1;
    }
    assert(x@ =~= y@);
    true
}

fn count_same(sets: &Vec<Meld>, m: &Meld) -> (r: usize)
    ensures
        r == count_meld(melds_view(sets@), m@),
{
    let ghost ms = melds_view(sets@);
    let mut c: usize = 0;
    let mut i: usize = 0;
    while i < sets.len()
        invariant
            i <= sets.len(),
            ms == melds_view(sets@),
            c == count_meld(ms.subrange(0, i as int), m@),
            c <= i,
        decreases sets.len() - i,
    {
        assert(ms.subrange(0, i + 1).drop_last() =~= ms.subrange(0, i as int));
        assert(ms.subrange(0, i + 1).last() == sets@[i as int]@);
        if same_meld(&sets[i], m) {
            c += 1;
        }
        i += 1;
    }
    assert(ms.subrange(0, sets.len() as int) =~= ms);
    c
}

fn has_one_identical_pair(sets: &Vec<Meld>) -> (r: bool)
    ensures
        r == one_identical_pair(melds_view(sets@)),
{
    let ghost ms = melds_view(sets@);
    let mut i: usize = 0;
    while i < sets.len()
        invariant
            i <= sets.len(),
            ms == melds_view(sets@),
            forall|k: int| 0 <= k < i ==> !((#[trigger] ms[k]).0 == MeldKind::Chow && count_meld(ms, ms[k]) == 2),
        decreases sets.len() - i,
    {
        assert(ms[i as int] == sets@[i as int]@);
        if matches!(sets[i], Meld::Chow(_)) && count_same(sets, &sets[i]) == 2 {
            return true;
        }
        i += 1;
    }
    false
}

fn has_two_identical_pairs(sets: &Vec<Meld>) -> (r: bool)
    ensures
        r == two_identical_pairs(melds_view(sets@)),
{
    let ghost ms = melds_view(sets@);
    let mut chows: usize = 0;
    let mut i: usize = 0;
    while i < sets.len()
        invariant
            i <= sets.len(),
            ms == melds_view(sets@),
            chows == count_chows(ms.subrange(0, i as int)),
            chows <= i,
            forall|k: int| 0 <= k < i && (#[trigger] ms[k]).0 == MeldKind::Chow ==> count_meld(ms, ms[k]) == 2,
        decreases sets.len() - i,
    {
        assert(ms.subrange(0, i + 1).drop_last() =~= ms.subrange(0, i as int));
        assert(ms.subrange(0, i + 1).last() == sets@[i as int]@);
        assert(ms[i as int] == sets@[i as int]@);
        if matches!(sets[i], Meld::Chow(_)) {
            if count_same(sets, &sets[i]) != 2 {
                return false;
            }
            chows += 1;
        }
        i += 1;
    }
    assert(ms.subrange(0, sets.len() as int) =~= ms);
    chows == 4
}

/// A group of at least three dragons or of a valued wind.
pub open spec fn valued_group(s: Seq<Tile>, seat: Option<Tile>, prevalent: Option<Tile>) -> bool {
    count_tile(s, Tile::Honour(Honour::Dragon(Dragon::White))) >= 3
        || count_tile(s, Tile::Honour(Honour::Dragon(Dragon::Green))) >= 3
        || count_tile(s, Tile::Honour(Honour::Dragon(Dragon::Red))) >= 3
        || (seat is Some && count_tile(s, seat->0) >= 3)
        || (prevalent is Some && count_tile(s, prevalent->0) >= 3)
}

pub open spec fn meld_valued(ms: Seq<MeldView>, seat: Option<Tile>, prevalent: Option<Tile>) -> nat
    decreases ms.len(),
{
    if ms.len() == 0 {
        0
    } else {
        meld_valued(ms.drop_last(), seat, prevalent) + if valued_group(ms.last().1, seat, prevalent) { 1nat } else { 0nat }
    }
}

pub open spec fn open_valued(os: Seq<OpenView>, seat: Option<Tile>, prevalent: Option<Tile>) -> nat
    decreases os.len(),
{
    if os.len() == 0 {
        0
    } else {
        open_valued(os.drop_last(), seat, prevalent) + if valued_group(os.last().1, seat, prevalent) { 1nat } else { 0nat }
    }
}

/// Valued groups of a reading, declared and concealed.
pub open spec fn honor_count(n: NodeView, seat: Option<Tile>, prevalent: Option<Tile>) -> nat {
    open_valued(n.open_sets, seat, prevalent) + meld_valued(n.sets, seat, prevalent)
}

fn is_valued_group(v: &Vec<Tile>, seat: Option<Tile>, prevalent: Option<Tile>) -> (r: bool)
    ensures
        r == valued_group(v@, seat, prevalent),
{
    count_at_least(v, Dragon::White.tile(), 3) || count_at_least(v, Dragon::Green.tile(), 3)
        || count_at_least(v, Dragon::Red.tile(), 3) || match seat {
        Some(t) => count_at_least(v, t, 3),
        None => false,
    } || match prevalent {
        Some(t) => count_at_least(v, t, 3),
        None => false,
    }
}

fn node_honor_count(node: &Node, seat: Option<Tile>, prevalent: Option<Tile>) -> (r: u32)
    requires
        node_bounded(node@),
    ensures
        r == honor_count(node@, seat, prevalent),
        r <= 32,
{
    let ghost n = node@;
    let mut c: u32 = 0;
    let mut j: usize = 0;
    while j < node.open_sets.len()
        invariant
            j <= node.open_sets.len(),
            n == node@,
            node_bounded(n),
            c == open_valued(n.open_sets.subrange(0, j as int), seat, prevalent),
            c <= j,
        decreases node.open_sets.len() - j,
    {
        assert(n.open_sets.subrange(0, j + 1).drop_last() =~= n.open_sets.subrange(0, j as int));
        assert(n.open_sets.subrange(0, j + 1).last() == node.open_sets@[j as int]@);
        if is_valued_group(node.open_sets[j].tiles(), seat, prevalent) {
            c += 1;
        }
        j += 1;
    }
    assert(n.open_sets.subrange(0, node.open_sets.len() as int) =~= n.open_sets);
    let mut d: u32 = 0;
    let mut i: usize = 0;
    while i < node.sets.len()
        invariant
            i <= node.sets.len(),
            n == node@,
            node_bounded(n),
            d == meld_valued(n.sets.subrange(0, i as int), seat, prevalent),
            d <= i,
        decreases node.sets.len() - i,
    {
        assert(n.sets.subrange(0, i + 1).drop_last() =~= n.sets.subrange(0, i as int));
        assert(n.sets.subrange(0, i + 1).last() == node.sets@[i as int]@);
        if is_valued_group(node.sets[i].tiles(), seat, prevalent) {
            d += 1;
        }
        i += 1;
    }
    assert(n.sets.subrange(0, node.sets.len() as int) =~= n.sets);
    c + d
}

pub open spec fn white() -> Tile {
    Tile::Honour(Honour::Dragon(Dragon::White))
}

pub open spec fn green() -> Tile {
    Tile::Honour(Honour::Dragon(Dragon::Green))
}

pub open spec fn red() -> Tile {
    Tile::Honour(Honour::Dragon(Dragon::Red))
}

/// Two dragon triplets and a dragon pair: every dragon has a group of at
/// least two, and two of them a group of at least three.
pub open spec fn little_three_dragons(n: NodeView) -> bool {
    has_group(n, white(), 2) && has_group(n, green(), 2) && has_group(n, red(), 2) && (
    (if has_group(n, white(), 3) { 1int } else { 0int }) + (if has_group(n, green(), 3) { 1int } else { 0int })
        + (if has_group(n, red(), 3) { 1int } else { 0int }) >= 2)
}

/// The han that `rule` grants a candidate, if it applies; `draw` tells a
/// self-drawn win.
pub open spec fn rule_han(rule: crate::yaku::YakuRule, w: WaitView, draw: bool) -> Option<u32> {
    let n = w.node;
    let closed = closed_spec(n);
    match rule {
        crate::yaku::YakuRule::NoPoints => if closed && w.kind == WaitKind::Ryanmen && w.fu.0 == (if draw { 22u32 } else { 30u32 }) {
            Some(1)
        } else {
            None
        },
        crate::yaku::YakuRule::OneSetOfIdenticalSequences => if closed && one_identical_pair(n.sets) {
            Some(1)
        } else {
            None
        },
        crate::yaku::YakuRule::TwoSetsOfIdenticalSequences => if closed && two_identical_pairs(n.sets) {
            Some(3)
        } else {
            None
        },
        crate::yaku::YakuRule::SevenPairs => if closed && n.sets.len() == 7 && forall|i: int|
            0 <= i < n.sets.len() ==> (#[trigger] n.sets[i]).0 == MeldKind::Pair {
            Some(2)
        } else {
            None
        },
        crate::yaku::YakuRule::AllSimple => if all_pass(n, MeldTest::NoYaotyu) {
            Some(1)
        } else {
            None
        },
        crate::yaku::YakuRule::ThreeColourStraight => if three_colours(run_starts(n)) {
            Some(if closed { 2 } else { 1 })
        } else {
            None
        },
        crate::yaku::YakuRule::Straight => if full_straight(run_starts(n)) {
            Some(if closed { 2 } else { 1 })
        } else {
            None
        },
        crate::yaku::YakuRule::AllTripletHand => if n.sets.len() != 7 && all_pass(n, MeldTest::Flat) {
            Some(2)
        } else {
            None
        },
        crate::yaku::YakuRule::ThreeClosedTriplets => if closed_triplets(n) == 4 {
            Some(2)
        } else {
            None
        },
        crate::yaku::YakuRule::ThreeColourTriplets => if three_colours(triplet_tiles(n)) {
            Some(2)
        } else {
            None
        },
        crate::yaku::YakuRule::HonorTiles { seat_wind, prevalent_wind } => if honor_count(n, seat_wind, prevalent_wind) == 0 {
            None
        } else {
            Some(honor_count(n, seat_wind, prevalent_wind) as u32)
        },
        crate::yaku::YakuRule::TerminalOrHonorInEachSet => if all_pass(n, MeldTest::HasYaotyu) {
            Some(if closed { 2 } else { 1 })
        } else {
            None
        },
        crate::yaku::YakuRule::TerminalInEachSet => if all_pass(n, MeldTest::HasTerminal) {
            Some(if closed { 3 } else { 2 })
        } else {
            None
        },
        crate::yaku::YakuRule::AllTerminalsAndHonors => if all_pass(n, MeldTest::YaotyuFlat) {
            Some(2)
        } else {
            None
        },
        crate::yaku::YakuRule::LittleThreeDragons => if little_three_dragons(n) {
            Some(2)
        } else {
            None
        },
        crate::yaku::YakuRule::HalfFlush => if exists|u: Suit| #[trigger] all_pass(n, MeldTest::SuitOrHonor(u)) {
            Some(if closed { 3 } else { 2 })
        } else {
            None
        },
        crate::yaku::YakuRule::Flush => if exists|u: Suit| #[trigger] all_pass(n, MeldTest::InSuit(u)) {
            Some(if closed { 6 } else { 5 })
        } else {
            None
        },
    }
}

fn any_suit_passes(node: &Node, flush: bool) -> (r: bool)
    ensures
        flush ==> r == exists|u: Suit| #[trigger] all_pass(node@, MeldTest::InSuit(u)),
        !flush ==> r == exists|u: Suit| #[trigger] all_pass(node@, MeldTest::SuitOrHonor(u)),
{
    let (a, b, c) = if flush {
        (MeldTest::InSuit(Suit::Character), MeldTest::InSuit(Suit::Circle), MeldTest::InSuit(Suit::Bamboo))
    } else {
        (MeldTest::SuitOrHonor(Suit::Character), MeldTest::SuitOrHonor(Suit::Circle), MeldTest::SuitOrHonor(Suit::Bamboo))
    };
    let r = node_all_pass(node, a) || node_all_pass(node, b) || node_all_pass(node, c);
    proof {
        if flush && exists|u: Suit| #[trigger] all_pass(node@, MeldTest::InSuit(u)) {
            let u = choose|u: Suit| #[trigger] all_pass(node@, MeldTest::InSuit(u));
            match u {
                Suit::Character => {},
                Suit::Circle => {},
                Suit::Bamboo => {},
            }
        }
        if !flush && exists|u: Suit| #[trigger] all_pass(node@, MeldTest::SuitOrHonor(u)) {
            let u = choose|u: Suit| #[trigger] all_pass(node@, MeldTest::SuitOrHonor(u));
            match u {
                Suit::Character => {},
                Suit::Circle => {},
                Suit::Bamboo => {},
            }
        }
    }
    r
}

fn is_seven_pairs(sets: &Vec<Meld>) -> (r: bool)
    ensures
        r == (sets@.len() == 7 && forall|i: int| 0 <= i < sets@.len() ==> (#[trigger] melds_view(sets@)[i]).0 == MeldKind::Pair),
{
    if sets.len() != 7 {
        return false;
    }
    let mut i: usize = 0;
    while i < sets.len()
        invariant
            i <= sets.len(),
            forall|k: int| 0 <= k < i ==> (#[trigger] melds_view(sets@)[k]).0 == MeldKind::Pair,
        decreases sets.len() - i,
    {
        assert(melds_view(sets@)[i as int] == sets@[i as int]@);
        if !matches!(sets[i], Meld::Pair(_)) {
            return false;
        }
        i += 1;
    }
    true
}

fn node_little_three_dragons(node: &Node) -> (r: bool)
    ensures
        r == little_three_dragons(node@),
{
    let w2 = node_has_group(node, Dragon::White.tile(), 2);
    let g2 = node_has_group(node, Dragon::Green.tile(), 2);
    let r2 = node_has_group(node, Dragon::Red.tile(), 2);
    let w3 = node_has_group(node, Dragon::White.tile(), 3);
    let g3 = node_has_group(node, Dragon::Green.tile(), 3);
    let r3 = node_has_group(node, Dragon::Red.tile(), 3);
    let big: u8 = (if w3 { 1u8 } else { 0u8 }) + (if g3 { 1u8 } else { 0u8 }) + (if r3 { 1u8 } else { 0u8 });
    w2 && g2 && r2 && big >= 2
}

/// The han that `rule` grants the candidate `w`, if it applies.
pub fn evaluate_rule(rule: crate::yaku::YakuRule, w: &Wait, draw: bool) -> (r: Option<u32>)
    requires
        node_bounded(w@.node),
    ensures
        r == rule_han(rule, w@, draw),
        r matches Some(h) ==> h <= 32,
{
    let node = w.node();
    let closed = w.closed();
    match rule {
        crate::yaku::YakuRule::NoPoints => {
            let target: u32 = if draw { 22 } else { 30 };
            if closed && matches!(w, Wait::Ryanmen(..)) && w.fu().0 == target {
                Some(1)
            } else {
                None
            }
        },
        crate::yaku::YakuRule::OneSetOfIdenticalSequences => {
            if closed && has_one_identical_pair(&node.sets) {
                Some(1)
            } else {
                None
            }
        },
        crate::yaku::YakuRule::TwoSetsOfIdenticalSequences => {
            if closed && has_two_identical_pairs(&node.sets) {
                Some(3)
            } else {
                None
            }
        },
        crate::yaku::YakuRule::SevenPairs => {
            if closed && is_seven_pairs(&node.sets) {
                Some(2)
            } else {
                None
            }
        },
        crate::yaku::YakuRule::AllSimple => {
            if node_all_pass(node, MeldTest::NoYaotyu) {
                Some(1)
            } else {
                None
            }
        },
        crate::yaku::YakuRule::ThreeColourStraight => {
            if has_three_colours(&node_run_starts(node)) {
                Some(if closed { 2 } else { 1 })
            } else {
                None
            }
        },
        crate::yaku::YakuRule::Straight => {
            if has_full_straight(&node_run_starts(node)) {
                Some(if closed { 2 } else { 1 })
            } else {
                None
            }
        },
        crate::yaku::YakuRule::AllTripletHand => {
            if node.sets.len() != 7 && node_all_pass(node, MeldTest::Flat) {
                Some(2)
            } else {
                None
            }
        },
        crate::yaku::YakuRule::ThreeClosedTriplets => {
            if node_closed_triplets(node) == 4 {
                Some(2)
            } else {
                None
            }
        },
        crate::yaku::YakuRule::ThreeColourTriplets => {
            if has_three_colours(&node_triplet_tiles(node)) {
                Some(2)
            } else {
                None
            }
        },
        crate::yaku::YakuRule::HonorTiles { seat_wind, prevalent_wind } => {
            let h = node_honor_count(node, seat_wind, prevalent_wind);
            if h == 0 {
                None
            } else {
                Some(h)
            }
        },
        crate::yaku::YakuRule::TerminalOrHonorInEachSet => {
            if node_all_pass(node, MeldTest::HasYaotyu) {
                Some(if closed { 2 } else { 1 })
            } else {
                None
            }
        },
        crate::yaku::YakuRule::TerminalInEachSet => {
            if node_all_pass(node, MeldTest::HasTerminal) {
                Some(if closed { 3 } else { 2 })
            } else {
                None
            }
        },
        crate::yaku::YakuRule::AllTerminalsAndHonors => {
            if node_all_pass(node, MeldTest::YaotyuFlat) {
                Some(2)
            } else {
                None
            }
        },
        crate::yaku::YakuRule::LittleThreeDragons => {
            if node_little_three_dragons(node) {
                Some(2)
            } else {
                None
            }
        },
        crate::yaku::YakuRule::HalfFlush => {
            if any_suit_passes(node, false) {
                Some(if closed { 3 } else { 2 })
            } else {
                None
            }
        },
        crate::yaku::YakuRule::Flush => {
            if any_suit_passes(node, true) {
                Some(if closed { 6 } else { 5 })
            } else {
                None
            }
        },
    }
}

} // verus!

verus! {

/// One of each terminal and honour, in canonical order.
pub open spec fn thirteen_orphans() -> Seq<Tile> {
    seq![
        Tile::Character(1),
        Tile::Character(9),
        Tile::Circle(1),
        Tile::Circle(9),
        Tile::Bamboo(1),
        Tile::Bamboo(9),
        Tile::Honour(Honour::Wind(Wind::East)),
        Tile::Honour(Honour::Wind(Wind::South)),
        Tile::Honour(Honour::Wind(Wind::West)),
        Tile::Honour(Honour::Wind(Wind::North)),
        Tile::Honour(Honour::Dragon(Dragon::White)),
        Tile::Honour(Honour::Dragon(Dragon::Green)),
        Tile::Honour(Honour::Dragon(Dragon::Red)),
    ]
}

fn thirteen_orphans_vec() -> (r: Vec<Tile>)
    ensures
        r@ == thirteen_orphans(),
{
    vec![
        Tile::Character(1),
        Tile::Character(9),
        Tile::Circle(1),
        Tile::Circle(9),
        Tile::Bamboo(1),
        Tile::Bamboo(9),
        Wind::East.tile(),
        Wind::South.tile(),
        Wind::West.tile(),
        Wind::North.tile(),
        Dragon::White.tile(),
        Dragon::Green.tile(),
        Dragon::Red.tile(),
    ]
}

/// `s` without any copy of `t`.
pub open spec fn without_tile(s: Seq<Tile>, t: Tile) -> Seq<Tile>
    decreases s.len(),
{
    if s.len() == 0 {
        s
    } else {
        without_tile(s.drop_last(), t) + if s.last() == t { Seq::empty() } else { seq![s.last()] }
    }
}

/// The hand holds every terminal and honour.
pub open spec fn holds_all_orphans(orig: Seq<Tile>) -> bool {
    forall|k: int| 0 <= k < 13 ==> orig.contains(#[trigger] thirteen_orphans()[k])
}

/// The winning tile made the pair of a hand of one of each terminal and
/// honour: the thirteen-sided wait.
pub open spec fn thirteen_wait(orig: Seq<Tile>, winning: Tile) -> bool {
    orig.len() == 14 && crate::groups::canonical(without_tile(orig, winning).push(winning)) == thirteen_orphans()
}

pub open spec fn wind(w: Wind) -> Tile {
    Tile::Honour(Honour::Wind(w))
}

/// Three or more of the 1 and the 9 of suit `u`, and one or more of each rank
/// between.
pub open spec fn nine_gates_counts(orig: Seq<Tile>, u: Suit) -> bool {
    count_tile(orig, suit_tile(u, 1)) >= 3 && count_tile(orig, suit_tile(u, 9)) >= 3 && forall|r: u8|
        2 <= r <= 8 ==> count_tile(orig, #[trigger] suit_tile(u, r)) >= 1
}

/// How many yakuman `rule` is worth for a candidate of the hand `orig` (0
/// when it does not apply).
pub open spec fn yakuman_value(rule: crate::yaku::YakumanRule, w: WaitView, orig: Seq<Tile>) -> u32 {
    let n = w.node;
    match rule {
        crate::yaku::YakumanRule::ThirteenOrphans => if holds_all_orphans(orig) && crate::groups::all_yaotyu(orig) { 1 } else { 0 },
        crate::yaku::YakumanRule::ThirteenOrphans13Wait => if thirteen_wait(orig, w.winning) { 2 } else { 0 },
        crate::yaku::YakumanRule::BigThreeDragons => if has_group(n, white(), 3) && has_group(n, green(), 3) && has_group(n, red(), 3) {
            1
        } else {
            0
        },
        crate::yaku::YakumanRule::FourConcealedTriplets => if closed_triplets(n) == 5 { 1 } else { 0 },
        crate::yaku::YakumanRule::LittleFourWinds => if has_group(n, wind(Wind::East), 2) && has_group(n, wind(Wind::South), 2)
            && has_group(n, wind(Wind::West), 2) && has_group(n, wind(Wind::North), 2) {
            1
        } else {
            0
        },
        crate::yaku::YakumanRule::BigFourWinds => if has_group(n, wind(Wind::East), 3) && has_group(n, wind(Wind::South), 3)
            && has_group(n, wind(Wind::West), 3) && has_group(n, wind(Wind::North), 3) {
            1
        } else {
            0
        },
        crate::yaku::YakumanRule::AllHonors => if all_pass(n, MeldTest::AllHonor) { 1 } else { 0 },
        crate::yaku::YakumanRule::AllTerminals => if all_pass(n, MeldTest::AllTerminal) { 1 } else { 0 },
        crate::yaku::YakumanRule::AllGreen => if all_pass(n, MeldTest::Green) { 1 } else { 0 },
        crate::yaku::YakumanRule::NineGates => if exists|u: Suit| nine_gates_counts(orig, u) && #[trigger] all_pass(n, MeldTest::InSuit(u)) {
            1
        } else {
            0
        },
    }
}

fn without_tile_vec(v: &Vec<Tile>, t: Tile) -> (r: Vec<Tile>)
    ensures
        r@ == without_tile(v@, t),
{
    let mut r: Vec<Tile> = Vec::new();
    let mut i: usize = 0;
    while i < v.len()
        invariant
            i <= v.len(),
            r@ == without_tile(v@.subrange(0, i as int), t),
        decreases v.len() - i,
    {
        assert(v@.subrange(0, i + 1).drop_last() =~= v@.subrange(0, i as int));
        if v[i] != t {
            r.push(v[i]);
        }
        assert(r@ =~= without_tile(v@.subrange(0, i + 1), t));
        i += 1;
    }
    assert(v@.subrange(0, v.len() as int) =~= v@);
    r
}

fn same_tiles(a: &Vec<Tile>, b: &Vec<Tile>) -> (r: bool)
    ensures
        r == (a@ == b@),
{
    if a.len() != b.len() {
        return false;
    }
    let mut i: usize = 0;
    while i < a.len()
        invariant
            i <= a.len(),
            a.len() == b.len(),
            forall|k: int| 0 <= k < i ==> a@[k] == b@[k],
        decreases a.len() - i,
    {
        if a[i] != b[i] {
            return false;
        }
        i += 1;
    }
    assert(a@ =~= b@);
    true
}

fn holds_all_orphans_exec(orig: &Vec<Tile>) -> (r: bool)
    ensures
        r == holds_all_orphans(orig@),
{
    let list = thirteen_orphans_vec();
    let mut k: usize = 0;
    while k < list.len()
        invariant
            k <= list.len(),
            list@ == thirteen_orphans(),
            forall|j: int| 0 <= j < k ==> orig@.contains(#[trigger] thirteen_orphans()[j]),
        decreases list.len() - k,
    {
        if !contains_tile(orig, list[k]) {
            return false;
        }
        k += 1;
    }
    true
}

fn nine_gates_counts_exec(orig: &Vec<Tile>, u: Suit) -> (r: bool)
    ensures
        r == nine_gates_counts(orig@, u),
{
    if !count_at_least(orig, make_suit_tile(u, 1), 3) || !count_at_least(orig, make_suit_tile(u, 9), 3) {
        return false;
    }
    let mut r: u8 = 2;
    while r <= 8
        invariant
            2 <= r <= 9,
            forall|q: u8| 2 <= q < r ==> count_tile(orig@, #[trigger] suit_tile(u, q)) >= 1,
        decreases 9 - r,
    {
        if !count_at_least(orig, make_suit_tile(u, r), 1) {
            return false;
        }
        r += 1;
    }
    true
}

/// How many yakuman `rule` is worth for the candidate `w` of the hand `orig`.
pub fn evaluate_yakuman_rule(rule: crate::yaku::YakumanRule, w: &Wait, orig: &Vec<Tile>) -> (r: u32)
    requires
        node_bounded(w@.node),
    ensures
        r == yakuman_value(rule, w@, orig@),
        r <= 2,
{
    let node = w.node();
    match rule {
        crate::yaku::YakumanRule::ThirteenOrphans => {
            if holds_all_orphans_exec(orig) && orig.all_yaotyu() { 1 } else { 0 }
        },
        crate::yaku::YakumanRule::ThirteenOrphans13Wait => {
            if orig.len() != 14 {
                return 0;
            }
            let winning = w.winning();
            let mut rest = without_tile_vec(orig, winning);
            rest.push(winning);
            let sorted = crate::groups::sorted_tiles(&rest);
            if same_tiles(&sorted, &thirteen_orphans_vec()) { 2 } else { 0 }
        },
        crate::yaku::YakumanRule::BigThreeDragons => {
            if node_has_group(node, Dragon::White.tile(), 3) && node_has_group(node, Dragon::Green.tile(), 3)
                && node_has_group(node, Dragon::Red.tile(), 3) {
                1
            } else {
                0
            }
        },
        crate::yaku::YakumanRule::FourConcealedTriplets => {
            if node_closed_triplets(node) == 5 { 1 } else { 0 }
        },
        crate::yaku::YakumanRule::LittleFourWinds => {
            if node_has_group(node, Wind::East.tile(), 2) && node_has_group(node, Wind::South.tile(), 2)
                && node_has_group(node, Wind::West.tile(), 2) && node_has_group(node, Wind::North.tile(), 2) {
                1
            } else {
                0
            }
        },
        crate::yaku::YakumanRule::BigFourWinds => {
            if node_has_group(node, Wind::East.tile(), 3) && node_has_group(node, Wind::South.tile(), 3)
                && node_has_group(node, Wind::West.tile(), 3) && node_has_group(node, Wind::North.tile(), 3) {
                1
            } else {
                0
            }
        },
        crate::yaku::YakumanRule::AllHonors => {
            if node_all_pass(node, MeldTest::AllHonor) { 1 } else { 0 }
        },
        crate::yaku::YakumanRule::AllTerminals => {
            if node_all_pass(node, MeldTest::AllTerminal) { 1 } else { 0 }
        },
        crate::yaku::YakumanRule::AllGreen => {
            if node_all_pass(node, MeldTest::Green) { 1 } else { 0 }
        },
        crate::yaku::YakumanRule::NineGates => {
            let c = nine_gates_counts_exec(orig, Suit::Character) && node_all_pass(node, MeldTest::InSuit(Suit::Character));
            let p = nine_gates_counts_exec(orig, Suit::Circle) && node_all_pass(node, MeldTest::InSuit(Suit::Circle));
            let b = nine_gates_counts_exec(orig, Suit::Bamboo) && node_all_pass(node, MeldTest::InSuit(Suit::Bamboo));
            proof {
                if exists|u: Suit| nine_gates_counts(orig@, u) && #[trigger] all_pass(node@, MeldTest::InSuit(u)) {
                    let u = choose|u: Suit| nine_gates_counts(orig@, u) && #[trigger] all_pass(node@, MeldTest::InSuit(u));
                    match u {
                        Suit::Character => {},
                        Suit::Circle => {},
                        Suit::Bamboo => {},
                    }
                }
            }
            if c || p || b { 1 } else { 0 }
        },
    }
}

} // verus!

verus! {

/// The han, names and fu rule that a yaku contributes: its own when it
/// applies, else those of the weaker yaku behind it, else nothing.
pub open spec fn yaku_chain(y: HandYaku, w: WaitView, draw: bool) -> (int, Seq<Seq<char>>, Option<FuRule>)
    decreases y,
{
    match rule_han(y.rule, w, draw) {
        Some(h) => (h as int, seq![y.name@], y.fu),
        None => match y.sub {
            Some(b) => yaku_chain(*b, w, draw),
            None => (0, Seq::empty(), None),
        },
    }
}

/// The sum over a list of yaku; the last fu rule that applies wins.
pub open spec fn yaku_list_outcome(ys: Seq<HandYaku>, w: WaitView, draw: bool) -> (int, Seq<Seq<char>>, Option<FuRule>)
    decreases ys.len(),
{
    if ys.len() == 0 {
        (0, Seq::empty(), None)
    } else {
        let p = yaku_list_outcome(ys.drop_last(), w, draw);
        let c = yaku_chain(ys.last(), w, draw);
        (p.0 + c.0, p.1 + c.1, if c.2 is Some { c.2 } else { p.2 })
    }
}

/// The multiplier and names that a yakuman contributes: its own when it
/// applies, else those of the weaker yakuman behind it.
pub open spec fn yakuman_chain(y: Yakuman, w: WaitView, orig: Seq<Tile>) -> (int, Seq<Seq<char>>)
    decreases y,
{
    let v = yakuman_value(y.rule, w, orig);
    if v != 0 {
        (v as int, seq![y.name@])
    } else {
        match y.sub {
            Some(b) => yakuman_chain(*b, w, orig),
            None => (0, Seq::empty()),
        }
    }
}

pub open spec fn yakuman_list_outcome(ys: Seq<Yakuman>, w: WaitView, orig: Seq<Tile>) -> (int, Seq<Seq<char>>)
    decreases ys.len(),
{
    if ys.len() == 0 {
        (0, Seq::empty())
    } else {
        let p = yakuman_list_outcome(ys.drop_last(), w, orig);
        let c = yakuman_chain(ys.last(), w, orig);
        (p.0 + c.0, p.1 + c.1)
    }
}

pub open spec fn strings_view(v: Seq<String>) -> Seq<Seq<char>> {
    v.map_values(|s: String| s@)
}

fn push_string(v: &mut Vec<String>, s: String)
    ensures
        strings_view(final(v)@) == strings_view(old(v)@).push(s@),
{
    v.push(s);
    assert(strings_view(v@) =~= strings_view(old(v)@).push(s@));
}

/// Adds to `names` the names of the yaku that apply along the chain of `y`,
/// and returns their han and fu rule.
fn evaluate_yaku(y: &HandYaku, w: &Wait, draw: bool, names: &mut Vec<String>) -> (r: (u32, Option<FuRule>))
    requires
        node_bounded(w@.node),
    ensures
        r.0 as int == yaku_chain(*y, w@, draw).0,
        r.0 <= 32,
        r.1 == yaku_chain(*y, w@, draw).2,
        strings_view(final(names)@) == strings_view(old(names)@) + yaku_chain(*y, w@, draw).1,
    decreases y,
{
    match evaluate_rule(y.rule, w, draw) {
        Some(h) => {
            push_string(names, y.name.clone());
            assert(strings_view(names@) =~= strings_view(old(names)@) + seq![y.name@]);
            (h, y.fu)
        },
        None => match &y.sub {
            Some(b) => evaluate_yaku(b, w, draw, names),
            None => {
                assert(strings_view(names@) =~= strings_view(old(names)@) + Seq::<Seq<char>>::empty());
                (0, None)
            },
        },
    }
}

/// Adds to `names` the names of the yakuman that apply along the chain of
/// `y`, and returns their multiplier.
fn evaluate_yakuman(y: &Yakuman, w: &Wait, orig: &Vec<Tile>, names: &mut Vec<String>) -> (r: u32)
    requires
        node_bounded(w@.node),
    ensures
        r as int == yakuman_chain(*y, w@, orig@).0,
        r <= 2,
        strings_view(final(names)@) == strings_view(old(names)@) + yakuman_chain(*y, w@, orig@).1,
    decreases y,
{
    let v = evaluate_yakuman_rule(y.rule, w, orig);
    if v != 0 {
        push_string(names, y.name.clone());
        assert(strings_view(names@) =~= strings_view(old(names)@) + seq![y.name@]);
        v
    } else {
        match &y.sub {
            Some(b) => evaluate_yakuman(b, w, orig, names),
            None => {
                assert(strings_view(names@) =~= strings_view(old(names)@) + Seq::<Seq<char>>::empty());
                0
            },
        }
    }
}

} // verus!

verus! {

/// A scored candidate: the reading, its score and the names of what applied.
pub struct Evaluated {
    pub node: Node,
    pub score: Score,
    pub yaku_list: Vec<String>,
}

pub struct EvaluatedView {
    pub node: NodeView,
    pub score: Score,
    pub yaku_list: Seq<Seq<char>>,
}

impl View for Evaluated {
    type V = EvaluatedView;

    open spec fn view(&self) -> EvaluatedView {
        EvaluatedView { node: self.node@, score: self.score, yaku_list: strings_view(self.yaku_list@) }
    }
}

pub open spec fn evaluated_view(v: Seq<Evaluated>) -> Seq<EvaluatedView> {
    v.map_values(|e: Evaluated| e@)
}

pub open spec fn situation_han(sit: Seq<SituationYaku>) -> int
    decreases sit.len(),
{
    if sit.len() == 0 {
        0
    } else {
        situation_han(sit.drop_last()) + sit.last().han_value.0
    }
}

pub open spec fn situation_names(sit: Seq<SituationYaku>) -> Seq<Seq<char>> {
    sit.map_values(|s: SituationYaku| s.name@)
}

pub open spec fn fu_rule_value(f: FuRule, draw: bool) -> u32 {
    match f {
        FuRule::NoPoints => if draw { 20 } else { 30 },
        FuRule::SevenPairs => 25,
    }
}

/// The score of one candidate: yakuman first (their names and multiplier);
/// else the situational han plus the yaku's, at the fu that a yaku fixes or
/// else the candidate's own.
pub open spec fn evaluation_of(
    yakuman: Seq<Yakuman>,
    yaku: Seq<HandYaku>,
    orig: Seq<Tile>,
    w: WaitView,
    draw: bool,
    sit: Seq<SituationYaku>,
) -> EvaluatedView {
    let ym = yakuman_list_outcome(yakuman, w, orig);
    if ym.0 != 0 {
        EvaluatedView { node: w.node, score: yakuman_of(ym.0 as u8), yaku_list: ym.1 }
    } else {
        let o = yaku_list_outcome(yaku, w, draw);
        let fu = match o.2 {
            Some(f) => Fu(fu_rule_value(f, draw)),
            None => w.fu,
        };
        EvaluatedView {
            node: w.node,
            score: tier_of(Han((situation_han(sit) + o.0) as u32), fu),
            yaku_list: situation_names(sit) + o.1,
        }
    }
}

/// Scores each candidate in turn.
pub open spec fn evaluations(
    yakuman: Seq<Yakuman>,
    yaku: Seq<HandYaku>,
    orig: Seq<Tile>,
    ws: Seq<WaitView>,
    draw: bool,
    sit: Seq<SituationYaku>,
) -> Seq<EvaluatedView> {
    ws.map_values(|w: WaitView| evaluation_of(yakuman, yaku, orig, w, draw, sit))
}

pub open spec fn eval_points(e: EvaluatedView) -> int {
    points(e.score, false)
}

/// `r` with `e` placed after every entry worth no more than it.
pub open spec fn insert_by_points(r: Seq<EvaluatedView>, e: EvaluatedView) -> Seq<EvaluatedView>
    decreases r.len(),
{
    if r.len() == 0 {
        seq![e]
    } else if eval_points(r.last()) <= eval_points(e) {
        r.push(e)
    } else {
        insert_by_points(r.drop_last(), e).push(r.last())
    }
}

/// `s` ordered by non-dealer points, ascending; equal entries keep their
/// order.
pub open spec fn sort_by_points(s: Seq<EvaluatedView>) -> Seq<EvaluatedView>
    decreases s.len(),
{
    if s.len() == 0 {
        s
    } else {
        insert_by_points(sort_by_points(s.drop_last()), s.last())
    }
}

pub open spec fn ascending_points(s: Seq<EvaluatedView>) -> bool {
    forall|i: int, j: int| 0 <= i < j < s.len() ==> eval_points(#[trigger] s[i]) <= eval_points(#[trigger] s[j])
}

proof fn lemma_insert_by_points_at(r: Seq<EvaluatedView>, e: EvaluatedView, k: int)
    requires
        0 <= k <= r.len(),
        forall|j: int| k <= j < r.len() ==> eval_points(#[trigger] r[j]) > eval_points(e),
        k == 0 || eval_points(r[k - 1]) <= eval_points(e),
    ensures
        insert_by_points(r, e) == r.subrange(0, k).push(e) + r.subrange(k, r.len() as int),
    decreases r.len(),
{
    if r.len() == 0 {
        assert(r.subrange(0, k).push(e) + r.subrange(k, r.len() as int) =~= seq![e]);
    } else if eval_points(r.last()) <= eval_points(e) {
        assert(k == r.len());
        assert(r.subrange(0, k).push(e) + r.subrange(k, r.len() as int) =~= r.push(e));
    } else {
        let d = r.drop_last();
        assert forall|j: int| k <= j < d.len() implies eval_points(#[trigger] d[j]) > eval_points(e) by {
            assert(d[j] == r[j]);
        }
        lemma_insert_by_points_at(d, e, k);
        assert((d.subrange(0, k).push(e) + d.subrange(k, d.len() as int)).push(r.last())
            =~= r.subrange(0, k).push(e) + r.subrange(k, r.len() as int));
    }
}

proof fn lemma_insert_by_points_sorted(r: Seq<EvaluatedView>, e: EvaluatedView)
    requires
        ascending_points(r),
    ensures
        ascending_points(insert_by_points(r, e)),
        insert_by_points(r, e).len() == r.len() + 1,
        forall|i: int| 0 <= i < insert_by_points(r, e).len() ==> (#[trigger] insert_by_points(r, e)[i] == e || r.contains(insert_by_points(r, e)[i])),
    decreases r.len(),
{
    if r.len() == 0 {
    } else if eval_points(r.last()) <= eval_points(e) {
        let x = r.push(e);
        assert forall|i: int| 0 <= i < x.len() implies (#[trigger] x[i] == e || r.contains(x[i])) by {
            if i < r.len() {
                assert(x[i] == r[i]);
            }
        }
    } else {
        let d = r.drop_last();
        lemma_insert_by_points_sorted(d, e);
        let x = insert_by_points(d, e);
        let y = x.push(r.last());
        assert forall|i: int| 0 <= i < y.len() implies (#[trigger] y[i] == e || r.contains(y[i])) by {
            if i < x.len() {
                if x[i] != e {
                    assert(d.contains(x[i]));
                    let m = choose|m: int| 0 <= m < d.len() && d[m] == x[i];
                    assert(r[m] == x[i]);
                }
            } else {
                assert(y[i] == r[r.len() - 1]);
            }
        }
        assert forall|i: int, j: int| 0 <= i < j < y.len() implies eval_points(#[trigger] y[i]) <= eval_points(#[trigger] y[j]) by {
            if j == x.len() {
                if x[i] != e {
                    assert(d.contains(x[i]));
                    let m = choose|m: int| 0 <= m < d.len() && d[m] == x[i];
                    assert(r[m] == x[i]);
                }
            } else {
                assert(y[i] == x[i]);
                assert(y[j] == x[j]);
            }
        }
    }
}

/// The ranked list is ordered by non-dealer points, so its last entry is
/// worth the most.
pub proof fn lemma_sort_by_points_ascending(s: Seq<EvaluatedView>)
    ensures
        ascending_points(sort_by_points(s)),
        sort_by_points(s).len() == s.len(),
    decreases s.len(),
{
    if s.len() > 0 {
        lemma_sort_by_points_ascending(s.drop_last());
        lemma_insert_by_points_sorted(sort_by_points(s.drop_last()), s.last());
    }
}

fn insert_evaluated(r: &mut Vec<Evaluated>, e: Evaluated)
    requires
        forall|j: int| 0 <= j < old(r)@.len() ==> score_wf((#[trigger] old(r)@[j]).score),
        score_wf(e.score),
    ensures
        evaluated_view(final(r)@) == insert_by_points(evaluated_view(old(r)@), e@),
        forall|j: int| 0 <= j < final(r)@.len() ==> score_wf((#[trigger] final(r)@[j]).score),
{
    let ghost rv = evaluated_view(r@);
    let p = e.score.score(false);
    let mut k: usize = r.len();
    while k > 0 && r[k - 1].score.score(false) > p
        invariant
            k <= r.len(),
            r@ == old(r)@,
            rv == evaluated_view(r@),
            p as int == eval_points(e@),
            forall|j: int| 0 <= j < r@.len() ==> score_wf((#[trigger] r@[j]).score),
            forall|j: int| k <= j < r.len() ==> eval_points(#[trigger] rv[j]) > eval_points(e@),
        decreases k,
    {
        assert(rv[k - 1] == r@[k - 1]@);
        k -= 1;
    }
    proof {
        if k > 0 {
            assert(rv[k - 1] == r@[k - 1]@);
        }
        lemma_insert_by_points_at(rv, e@, k as int);
    }
    let ghost ev = e@;
    r.insert(k, e);
    assert(evaluated_view(r@) =~= rv.subrange(0, k as int).push(ev) + rv.subrange(k as int, rv.len() as int));
    assert forall|j: int| 0 <= j < r@.len() implies score_wf((#[trigger] r@[j]).score) by {
        if j < k {
            assert(r@[j] == old(r)@[j]);
        } else if j > k {
            assert(r@[j] == old(r)@[j - 1]);
        }
    }
}

} // verus!

verus! {

/// The candidates of every reading, reading after reading.
pub open spec fn flat_waits(
    ns: Seq<NodeView>,
    winning: Tile,
    draw: bool,
    prevalent: Option<Tile>,
    seat: Option<Tile>,
) -> Seq<WaitView>
    decreases ns.len(),
{
    if ns.len() == 0 {
        Seq::empty()
    } else {
        flat_waits(ns.drop_last(), winning, draw, prevalent, seat) + waits_of(ns.last(), winning, draw, prevalent, seat)
    }
}

/// All candidates of a hand, with the hand's tiles.
#[derive(Debug)]
pub struct Waits {
    pub original_hand: Vec<Tile>,
    pub waits: Vec<Wait>,
}

impl Waits {
    pub fn new(original_hand: Vec<Tile>, waits: Vec<Wait>) -> (r: Self)
        ensures
            r.original_hand == original_hand,
            r.waits == waits,
    {
        Waits { original_hand, waits }
    }

    /// The candidates of every reading of `parsed_hand`.
    pub fn from_vec(parsed_hand: &ParsedHand, draw: bool, prevalent_wind: &Option<Tile>, seat_wind: &Option<Tile>) -> (r: Waits)
        requires
            forall|k: int| 0 <= k < parsed_hand.nodes@.len() ==> node_bounded((#[trigger] parsed_hand.nodes@[k])@),
        ensures
            waits_view(r.waits@) == flat_waits(
                nodes_view(parsed_hand.nodes@),
                parsed_hand.winning,
                draw,
                *prevalent_wind,
                *seat_wind,
            ),
            r.original_hand@ == parsed_hand.tiles@,
    {
        let ghost ns = nodes_view(parsed_hand.nodes@);
        let mut waits: Vec<Wait> = Vec::new();
        let mut i: usize = 0;
        while i < parsed_hand.nodes.len()
            invariant
                i <= parsed_hand.nodes.len(),
                ns == nodes_view(parsed_hand.nodes@),
                forall|k: int| 0 <= k < parsed_hand.nodes@.len() ==> node_bounded((#[trigger] parsed_hand.nodes@[k])@),
                waits_view(waits@) == flat_waits(ns.subrange(0, i as int), parsed_hand.winning, draw, *prevalent_wind, *seat_wind),
            decreases parsed_hand.nodes.len() - i,
        {
            let mut more = Wait::from(&parsed_hand.nodes[i], parsed_hand.winning, draw, *prevalent_wind, *seat_wind);
            let ghost before = waits_view(waits@);
            let ghost add = waits_view(more@);
            waits.append(&mut more);
            proof {
                let sub = ns.subrange(0, i + 1);
                assert(sub.drop_last() =~= ns.subrange(0, i as int));
                assert(sub.last() == parsed_hand.nodes@[i as int]@);
                assert(waits_view(waits@) =~= before + add);
            }
            i += 1;
        }
        assert(ns.subrange(0, parsed_hand.nodes.len() as int) =~= ns);
        Waits::new(copy_tiles(&parsed_hand.tiles), waits)
    }
}

proof fn lemma_base_fu_bound(n: NodeView, draw: bool, prevalent: Option<Tile>, seat: Option<Tile>)
    requires
        node_bounded(n),
    ensures
        0 <= base_fu(n, draw, prevalent, seat) <= 672,
{
    lemma_sets_fu_bound(n.sets);
    lemma_opens_fu_bound(n.open_sets);
}

proof fn lemma_waits_upto_bound(n: NodeView, k: int, winning: Tile, fu: int)
    requires
        0 <= fu <= 672,
        node_bounded(n),
    ensures
        forall|i: int|
            0 <= i < waits_upto(n, k, winning, fu).len() ==> (#[trigger] waits_upto(n, k, winning, fu)[i]).fu.0 <= 674
                && waits_upto(n, k, winning, fu)[i].node == n,
    decreases k,
{
    if k > 0 && k <= n.sets.len() {
        lemma_waits_upto_bound(n, k - 1, winning, fu);
        let p = waits_upto(n, k - 1, winning, fu);
        let x = waits_upto(n, k, winning, fu);
        assert forall|i: int| 0 <= i < x.len() implies (#[trigger] x[i]).fu.0 <= 674 && x[i].node == n by {
            if i < p.len() {
                assert(x[i] == p[i]);
            }
        }
    }
}

/// Every candidate of readings of bounded size carries its reading and at
/// most 674 fu.
proof fn lemma_flat_waits_bound(ns: Seq<NodeView>, winning: Tile, draw: bool, prevalent: Option<Tile>, seat: Option<Tile>)
    requires
        forall|k: int| 0 <= k < ns.len() ==> node_bounded(#[trigger] ns[k]),
    ensures
        forall|i: int|
            0 <= i < flat_waits(ns, winning, draw, prevalent, seat).len() ==> (#[trigger] flat_waits(
                ns,
                winning,
                draw,
                prevalent,
                seat,
            )[i]).fu.0 <= 674 && node_bounded(flat_waits(ns, winning, draw, prevalent, seat)[i].node),
    decreases ns.len(),
{
    if ns.len() > 0 {
        let d = ns.drop_last();
        assert forall|k: int| 0 <= k < d.len() implies node_bounded(#[trigger] d[k]) by {
            assert(d[k] == ns[k]);
        }
        lemma_flat_waits_bound(d, winning, draw, prevalent, seat);
        let n = ns.last();
        assert(node_bounded(ns[ns.len() - 1]));
        lemma_base_fu_bound(n, draw, prevalent, seat);
        lemma_waits_upto_bound(n, n.sets.len() as int, winning, base_fu(n, draw, prevalent, seat));
        let p = flat_waits(d, winning, draw, prevalent, seat);
        let x = flat_waits(ns, winning, draw, prevalent, seat);
        let q = waits_of(n, winning, draw, prevalent, seat);
        assert(x == p + q);
        assert forall|i: int| 0 <= i < x.len() implies (#[trigger] x[i]).fu.0 <= 674 && node_bounded(x[i].node) by {
            if i < p.len() {
                assert(x[i] == p[i]);
            } else {
                assert(x[i] == q[i - p.len()]);
            }
        }
    }
}

} // verus!

verus! {

/// Scores the candidates of a hand against a catalogue of yaku and yakuman.
pub struct Evaluator {
    /// Situational bonuses fixed for this evaluator.
    pub situation: Vec<SituationYaku>,
    pub adopted_yakuman_list: Vec<Yakuman>,
    pub adopted_yaku_list: Vec<HandYaku>,
    /// The round wind.
    pub prevalent_wind: Option<Tile>,
    /// The seat wind.
    pub seat_wind: Option<Tile>,
    pub dora: Vec<Tile>,
    pub ura_dora: Vec<Tile>,
}

pub open spec fn yaku_entry(y: HandYaku, name: Seq<char>, rule: crate::yaku::YakuRule, fu: Option<FuRule>) -> bool {
    y.name@ == name && y.rule == rule && y.fu == fu
}

pub open spec fn yaku_leaf(y: HandYaku, name: Seq<char>, rule: crate::yaku::YakuRule, fu: Option<FuRule>) -> bool {
    yaku_entry(y, name, rule, fu) && y.sub is None
}

/// The default catalogue of yaku, in evaluation order, each with the weaker
/// yaku behind it.
pub open spec fn is_default_yaku_list(v: Seq<HandYaku>, seat: Option<Tile>, prevalent: Option<Tile>) -> bool {
    &&& v.len() == 13
    &&& yaku_leaf(v[0], "タンヤオ / All simple"@, YakuRule::AllSimple, None)
    &&& yaku_leaf(v[1], "平和 / No-points hand"@, YakuRule::NoPoints, Some(FuRule::NoPoints))
    &&& yaku_leaf(v[2], "三暗刻 / Three closed triplets"@, YakuRule::ThreeClosedTriplets, None)
    &&& yaku_leaf(v[3], "三色同刻 / Three colour triplets"@, YakuRule::ThreeColourTriplets, None)
    &&& yaku_leaf(v[4], "小三元 / Little three dragons"@, YakuRule::LittleThreeDragons, None)
    &&& yaku_entry(v[5], "混老頭 / All terminals and honors"@, YakuRule::AllTerminalsAndHonors, None)
    &&& v[5].sub is Some
    &&& yaku_entry(*v[5].sub->0, "純全帯么九 / Terminal in each set"@, YakuRule::TerminalInEachSet, None)
    &&& (*v[5].sub->0).sub is Some
    &&& yaku_leaf(*(*v[5].sub->0).sub->0, "混全帯么九 / Terminal or honor in each set"@, YakuRule::TerminalOrHonorInEachSet, None)
    &&& yaku_leaf(v[6], "対々和 / All triplet hand"@, YakuRule::AllTripletHand, None)
    &&& yaku_entry(v[7], "清一色 / Flush"@, YakuRule::Flush, None)
    &&& v[7].sub is Some
    &&& yaku_leaf(*v[7].sub->0, "混一色 / Half flush"@, YakuRule::HalfFlush, None)
    &&& yaku_leaf(v[8], "一気通貫 / Straight"@, YakuRule::Straight, None)
    &&& yaku_entry(v[9], "二盃口 / Two set of identical sequences"@, YakuRule::TwoSetsOfIdenticalSequences, None)
    &&& v[9].sub is Some
    &&& yaku_leaf(*v[9].sub->0, "一盃口 / One set of identical sequences"@, YakuRule::OneSetOfIdenticalSequences, None)
    &&& yaku_leaf(v[10], "三色同順 / Three colour straight"@, YakuRule::ThreeColourStraight, None)
    &&& yaku_leaf(v[11], "七対子 / Seven pairs"@, YakuRule::SevenPairs, Some(FuRule::SevenPairs))
    &&& yaku_leaf(v[12], "役牌 / Honor tiles"@, YakuRule::HonorTiles { seat_wind: seat, prevalent_wind: prevalent }, None)
}

pub open spec fn yakuman_entry(y: Yakuman, name: Seq<char>, rule: crate::yaku::YakumanRule) -> bool {
    y.name@ == name && y.rule == rule
}

pub open spec fn yakuman_leaf(y: Yakuman, name: Seq<char>, rule: crate::yaku::YakumanRule) -> bool {
    yakuman_entry(y, name, rule) && y.sub is None
}

/// The default catalogue of yakuman, in evaluation order.
pub open spec fn is_default_yakuman_list(v: Seq<Yakuman>) -> bool {
    &&& v.len() == 8
    &&& yakuman_entry(v[0], "国士無双一三面待ち / Thirteen orphans 13 wait"@, YakumanRule::ThirteenOrphans13Wait)
    &&& v[0].sub is Some
    &&& yakuman_leaf(*v[0].sub->0, "国士無双 / Thirteen orphans"@, YakumanRule::ThirteenOrphans)
    &&& yakuman_leaf(v[1], "大三元 / Big three dragons"@, YakumanRule::BigThreeDragons)
    &&& yakuman_leaf(v[2], "四暗刻 / Four concealed triplets"@, YakumanRule::FourConcealedTriplets)
    &&& yakuman_entry(v[3], "大四喜 / Big four dragons"@, YakumanRule::BigFourWinds)
    &&& v[3].sub is Some
    &&& yakuman_leaf(*v[3].sub->0, "小四喜 / Little four dragons"@, YakumanRule::LittleFourWinds)
    &&& yakuman_leaf(v[4], "字一色 / All honors"@, YakumanRule::AllHonors)
    &&& yakuman_leaf(v[5], "清老頭 / All terminals"@, YakumanRule::AllTerminals)
    &&& yakuman_leaf(v[6], "九蓮宝燈 / Nine gates"@, YakumanRule::NineGates)
    &&& yakuman_leaf(v[7], "緑一色 / All green"@, YakumanRule::AllGreen)
}

fn leaf_yaku(name: &str, rule: crate::yaku::YakuRule, fu: Option<FuRule>) -> (r: HandYaku)
    ensures
        yaku_leaf(r, name@, rule, fu),
{
    HandYaku::new(name, None, rule, fu)
}

fn leaf_yakuman(name: &str, rule: crate::yaku::YakumanRule) -> (r: Yakuman)
    ensures
        yakuman_leaf(r, name@, rule),
{
    Yakuman::new(name, rule, None)
}

impl Evaluator {
    pub open spec fn wf(&self) -> bool {
        self.adopted_yaku_list@.len() <= 16 && self.adopted_yakuman_list@.len() <= 16
    }

    /// An evaluator with the default catalogues and the given winds.
    pub fn new(prevalent_wind: Option<Tile>, seat_wind: Option<Tile>, dora: Vec<Tile>, ura_dora: Vec<Tile>) -> (r: Self)
        ensures
            r.wf(),
            is_default_yaku_list(r.adopted_yaku_list@, seat_wind, prevalent_wind),
            is_default_yakuman_list(r.adopted_yakuman_list@),
            r.situation@.len() == 0,
            r.prevalent_wind == prevalent_wind,
            r.seat_wind == seat_wind,
            r.dora == dora,
            r.ura_dora == ura_dora,
    {
        let adopted_yaku_list = Self::default_adopted_yaku_list(&seat_wind, &prevalent_wind);
        let adopted_yakuman_list = Self::default_adopted_yakuman_list();
        Evaluator {
            situation: Vec::new(),
            adopted_yakuman_list,
            adopted_yaku_list,
            prevalent_wind,
            seat_wind,
            dora,
            ura_dora,
        }
    }

    /// The default yaku, the honour-tiles rule counting the given winds.
    pub fn default_adopted_yaku_list(seat_wind: &Option<Tile>, prevalent_wind: &Option<Tile>) -> (r: Vec<HandYaku>)
        ensures
            is_default_yaku_list(r@, *seat_wind, *prevalent_wind),
    {
        let nopoints = leaf_yaku("平和 / No-points hand", YakuRule::NoPoints, Some(FuRule::NoPoints));
        let oneset = leaf_yaku("一盃口 / One set of identical sequences", YakuRule::OneSetOfIdenticalSequences, None);
        let twoset = HandYaku::new("二盃口 / Two set of identical sequences", Some(Box::new(oneset)), YakuRule::TwoSetsOfIdenticalSequences, None);
        let seven_pairs = leaf_yaku("七対子 / Seven pairs", YakuRule::SevenPairs, Some(FuRule::SevenPairs));
        let all_simple = leaf_yaku("タンヤオ / All simple", YakuRule::AllSimple, None);
        let three_colour_straight = leaf_yaku("三色同順 / Three colour straight", YakuRule::ThreeColourStraight, None);
        let straight = leaf_yaku("一気通貫 / Straight", YakuRule::Straight, None);
        let all_triplet_hand = leaf_yaku("対々和 / All triplet hand", YakuRule::AllTripletHand, None);
        let three_closed_triplets = leaf_yaku("三暗刻 / Three closed triplets", YakuRule::ThreeClosedTriplets, None);
        let three_colour_triplets = leaf_yaku("三色同刻 / Three colour triplets", YakuRule::ThreeColourTriplets, None);
        let honor_tiles = leaf_yaku(
            "役牌 / Honor tiles",
            YakuRule::HonorTiles { seat_wind: *seat_wind, prevalent_wind: *prevalent_wind },
            None,
        );
        let terminal_or_honor_in_each_set = leaf_yaku("混全帯么九 / Terminal or honor in each set", YakuRule::TerminalOrHonorInEachSet, None);
        let terminal_in_each_set = HandYaku::new(
            "純全帯么九 / Terminal in each set",
            Some(Box::new(terminal_or_honor_in_each_set)),
            YakuRule::TerminalInEachSet,
            None,
        );
        let all_terminals_and_honors = HandYaku::new(
            "混老頭 / All terminals and honors",
            Some(Box::new(terminal_in_each_set)),
            YakuRule::AllTerminalsAndHonors,
            None,
        );
        let little_three_dragons = leaf_yaku("小三元 / Little three dragons", YakuRule::LittleThreeDragons, None);
        let half_flush = leaf_yaku("混一色 / Half flush", YakuRule::HalfFlush, None);
        let flush = HandYaku::new("清一色 / Flush", Some(Box::new(half_flush)), YakuRule::Flush, None);
        vec![
            all_simple,
            nopoints,
            three_closed_triplets,
            three_colour_triplets,
            little_three_dragons,
            all_terminals_and_honors,
            all_triplet_hand,
            flush,
            straight,
            twoset,
            three_colour_straight,
            seven_pairs,
            honor_tiles,
        ]
    }

    /// The default yakuman.
    pub fn default_adopted_yakuman_list() -> (r: Vec<Yakuman>)
        ensures
            is_default_yakuman_list(r@),
    {
        let thirteen_orphans = leaf_yakuman("国士無双 / Thirteen orphans", YakumanRule::ThirteenOrphans);
        let thirteen_orphans_13_wait = Yakuman::new(
            "国士無双一三面待ち / Thirteen orphans 13 wait",
            YakumanRule::ThirteenOrphans13Wait,
            Some(Box::new(thirteen_orphans)),
        );
        let big_three_dragons = leaf_yakuman("大三元 / Big three dragons", YakumanRule::BigThreeDragons);
        let four_concealed_triplets = leaf_yakuman("四暗刻 / Four concealed triplets", YakumanRule::FourConcealedTriplets);
        let little_four_winds = leaf_yakuman("小四喜 / Little four dragons", YakumanRule::LittleFourWinds);
        let big_four_winds = Yakuman::new("大四喜 / Big four dragons", YakumanRule::BigFourWinds, Some(Box::new(little_four_winds)));
        let all_honors = leaf_yakuman("字一色 / All honors", YakumanRule::AllHonors);
        let all_terminals = leaf_yakuman("清老頭 / All terminals", YakumanRule::AllTerminals);
        let all_green = leaf_yakuman("緑一色 / All green", YakumanRule::AllGreen);
        let nine_gates = leaf_yakuman("九蓮宝燈 / Nine gates", YakumanRule::NineGates);
        vec![
            thirteen_orphans_13_wait,
            big_three_dragons,
            four_concealed_triplets,
            big_four_winds,
            all_honors,
            all_terminals,
            nine_gates,
            all_green,
        ]
    }
}

} // verus!

verus! {

proof fn lemma_situation_prefix(sit: Seq<SituationYaku>, i: int)
    requires
        0 <= i <= sit.len(),
    ensures
        0 <= situation_han(sit.subrange(0, i)) <= situation_han(sit),
    decreases sit.len(),
{
    if i < sit.len() {
        lemma_situation_prefix(sit.drop_last(), i);
        assert(sit.drop_last().subrange(0, i) =~= sit.subrange(0, i));
    } else {
        assert(sit.subrange(0, i) =~= sit);
        lemma_situation_nonneg(sit);
    }
}

proof fn lemma_situation_nonneg(sit: Seq<SituationYaku>)
    ensures
        situation_han(sit) >= 0,
    decreases sit.len(),
{
    if sit.len() > 0 {
        lemma_situation_nonneg(sit.drop_last());
    }
}

impl Evaluator {
    /// The score of one candidate of the hand `original_hand`.
    pub fn evaluate_wait(&self, original_hand: &Vec<Tile>, wait: &Wait, draw: bool, situation: &Vec<SituationYaku>) -> (r: Evaluated)
        requires
            self.wf(),
            node_bounded(wait@.node),
            wait@.fu.0 <= MAX_FU,
            situation_han(situation@) + 512 <= u32::MAX,
        ensures
            r@ == evaluation_of(self.adopted_yakuman_list@, self.adopted_yaku_list@, original_hand@, wait@, draw, situation@),
            score_wf(r.score),
    {
        let ghost ym = self.adopted_yakuman_list@;
        let ghost yk = self.adopted_yaku_list@;
        let mut yakuman_names: Vec<String> = Vec::new();
        let mut multiple: u32 = 0;
        let mut i: usize = 0;
        while i < self.adopted_yakuman_list.len()
            invariant
                i <= self.adopted_yakuman_list.len(),
                self.wf(),
                ym == self.adopted_yakuman_list@,
                node_bounded(wait@.node),
                multiple as int == yakuman_list_outcome(ym.subrange(0, i as int), wait@, original_hand@).0,
                strings_view(yakuman_names@) == yakuman_list_outcome(ym.subrange(0, i as int), wait@, original_hand@).1,
                multiple <= 2 * i,
            decreases self.adopted_yakuman_list.len() - i,
        {
            let m = evaluate_yakuman(&self.adopted_yakuman_list[i], wait, original_hand, &mut yakuman_names);
            assert(ym.subrange(0, i + 1).drop_last() =~= ym.subrange(0, i as int));
            multiple = multiple + m;
            i += 1;
        }
        assert(ym.subrange(0, ym.len() as int) =~= ym);
        if multiple != 0 {
            return Evaluated { score: Score::yakuman(multiple as u8), node: copy_node(wait.node()), yaku_list: yakuman_names };
        }
        let ghost sit = situation@;
        let mut han: u32 = 0;
        let mut names: Vec<String> = Vec::new();
        let mut j: usize = 0;
        while j < situation.len()
            invariant
                j <= situation.len(),
                sit == situation@,
                situation_han(sit) + 512 <= u32::MAX,
                han as int == situation_han(sit.subrange(0, j as int)),
                strings_view(names@) == situation_names(sit.subrange(0, j as int)),
            decreases situation.len() - j,
        {
            proof {
                lemma_situation_prefix(sit, j + 1);
                assert(sit.subrange(0, j + 1).drop_last() =~= sit.subrange(0, j as int));
            }
            push_string(&mut names, situation[j].name());
            assert(strings_view(names@) =~= situation_names(sit.subrange(0, j + 1)));
            han = han + situation[j].han_value().0;
            j += 1;
        }
        assert(sit.subrange(0, sit.len() as int) =~= sit);
        let ghost base = han as int;
        let ghost base_names = strings_view(names@);
        let mut fu_rule: Option<FuRule> = None;
        let mut k: usize = 0;
        while k < self.adopted_yaku_list.len()
            invariant
                k <= self.adopted_yaku_list.len(),
                self.wf(),
                yk == self.adopted_yaku_list@,
                node_bounded(wait@.node),
                base == situation_han(sit),
                base + 512 <= u32::MAX,
                base_names == situation_names(sit),
                han as int == base + yaku_list_outcome(yk.subrange(0, k as int), wait@, draw).0,
                han as int <= base + 32 * k,
                strings_view(names@) == base_names + yaku_list_outcome(yk.subrange(0, k as int), wait@, draw).1,
                fu_rule == yaku_list_outcome(yk.subrange(0, k as int), wait@, draw).2,
            decreases self.adopted_yaku_list.len() - k,
        {
            let (h, f) = evaluate_yaku(&self.adopted_yaku_list[k], wait, draw, &mut names);
            assert(yk.subrange(0, k + 1).drop_last() =~= yk.subrange(0, k as int));
            assert(strings_view(names@) =~= base_names + yaku_list_outcome(yk.subrange(0, k + 1), wait@, draw).1);
            han = han + h;
            if f.is_some() {
                fu_rule = f;
            }
            k += 1;
        }
        assert(yk.subrange(0, yk.len() as int) =~= yk);
        let fu = match fu_rule {
            Some(FuRule::NoPoints) => Fu(if draw { 20 } else { 30 }),
            Some(FuRule::SevenPairs) => Fu(25),
            None => wait.fu(),
        };
        Evaluated { score: Score::new(Han(han), fu), node: copy_node(wait.node()), yaku_list: names }
    }

    /// Every candidate of `parsed_hand` scored, ordered by non-dealer points
    /// ascending; equal scores keep the order in which the candidates were
    /// found, so the last entry is the best.
    pub fn evaluate_all(&self, parsed_hand: &ParsedHand, draw: bool, situation: &Vec<SituationYaku>) -> (r: Vec<Evaluated>)
        requires
            self.wf(),
            forall|k: int| 0 <= k < parsed_hand.nodes@.len() ==> node_bounded((#[trigger] parsed_hand.nodes@[k])@),
            situation_han(situation@) + 512 <= u32::MAX,
        ensures
            evaluated_view(r@) == sort_by_points(
                evaluations(
                    self.adopted_yakuman_list@,
                    self.adopted_yaku_list@,
                    parsed_hand.tiles@,
                    flat_waits(nodes_view(parsed_hand.nodes@), parsed_hand.winning, draw, self.prevalent_wind, self.seat_wind),
                    draw,
                    situation@,
                ),
            ),
    {
        let waits = Waits::from_vec(parsed_hand, draw, &self.prevalent_wind, &self.seat_wind);
        let ghost ws = waits_view(waits.waits@);
        proof {
            lemma_flat_waits_bound(nodes_view(parsed_hand.nodes@), parsed_hand.winning, draw, self.prevalent_wind, self.seat_wind);
        }
        let mut scores: Vec<Evaluated> = Vec::new();
        let mut i: usize = 0;
        while i < waits.waits.len()
            invariant
                i <= waits.waits.len(),
                self.wf(),
                situation_han(situation@) + 512 <= u32::MAX,
                ws == waits_view(waits.waits@),
                waits.original_hand@ == parsed_hand.tiles@,
                forall|k: int| 0 <= k < ws.len() ==> (#[trigger] ws[k]).fu.0 <= 674 && node_bounded(ws[k].node),
                forall|j: int| 0 <= j < scores@.len() ==> score_wf((#[trigger] scores@[j]).score),
                evaluated_view(scores@) == sort_by_points(
                    evaluations(self.adopted_yakuman_list@, self.adopted_yaku_list@, parsed_hand.tiles@, ws.subrange(0, i as int), draw, situation@),
                ),
            decreases waits.waits.len() - i,
        {
            assert(ws[i as int] == waits.waits@[i as int]@);
            let e = self.evaluate_wait(&waits.original_hand, &waits.waits[i], draw, situation);
            proof {
                let a = evaluations(self.adopted_yakuman_list@, self.adopted_yaku_list@, parsed_hand.tiles@, ws.subrange(0, i + 1), draw, situation@);
                let b = evaluations(self.adopted_yakuman_list@, self.adopted_yaku_list@, parsed_hand.tiles@, ws.subrange(0, i as int), draw, situation@);
                assert(a.drop_last() =~= b);
                assert(a.last() == e@);
            }
            insert_evaluated(&mut scores, e);
            i += 1;
        }
        assert(ws.subrange(0, ws.len() as int) =~= ws);
        scores
    }

    /// The best-scoring candidate, the last of `evaluate_all`; `None` when the
    /// hand has no candidate.
    pub fn evaluate(&self, parsed_hand: &ParsedHand, draw: bool, situation: &Vec<SituationYaku>) -> (r: Option<Evaluated>)
        requires
            self.wf(),
            forall|k: int| 0 <= k < parsed_hand.nodes@.len() ==> node_bounded((#[trigger] parsed_hand.nodes@[k])@),
            situation_han(situation@) + 512 <= u32::MAX,
        ensures
            ({
                let all = sort_by_points(
                    evaluations(
                        self.adopted_yakuman_list@,
                        self.adopted_yaku_list@,
                        parsed_hand.tiles@,
                        flat_waits(nodes_view(parsed_hand.nodes@), parsed_hand.winning, draw, self.prevalent_wind, self.seat_wind),
                        draw,
                        situation@,
                    ),
                );
                &&& r is None <==> all.len() == 0
                &&& r matches Some(e) ==> e@ == all.last()
            }),
    {
        let mut all = self.evaluate_all(parsed_hand, draw, situation);
        let ghost v = evaluated_view(all@);
        let r = all.pop();
        proof {
            if v.len() > 0 {
                assert(v.last() == r->0@);
            }
        }
        r
    }
}

} // verus!

verus! {

/// Every reading of a fourteen-tile hand is of bounded size.
pub proof fn lemma_decompose_bounded(tiles: Seq<Tile>, open: Seq<OpenView>)
    requires
        tiles_wf(tiles),
        tiles.len() + 3 * open.len() == 14,
    ensures
        forall|i: int| 0 <= i < decompose(tiles, open).len() ==> node_bounded(#[trigger] decompose(tiles, open)[i]),
{
    lemma_leaf_tile_total(tiles, open);
    assert forall|i: int| 0 <= i < decompose(tiles, open).len() implies node_bounded(#[trigger] decompose(tiles, open)[i]) by {
        let v = decompose(tiles, open)[i];
        assert(leaf_holds_fourteen(v));
        assert(melds_nonempty(v.sets));
        lemma_total_ge_len(v.sets);
    }
}

impl Evaluator {
    /// Reads `string` and returns its best-scoring candidate.
    pub fn evaluate_str(&self, string: &str, draw: bool, situation: &Vec<SituationYaku>) -> (r: Result<Option<Evaluated>, HandError>)
        requires
            self.wf(),
            situation_han(situation@) + 512 <= u32::MAX,
        ensures
            r is Ok <==> parse_hand(string@) is Ok,
            r matches Err(e) ==> parse_hand(string@) == Err::<(Seq<Tile>, Seq<OpenView>, Tile), HandError>(e),
            r matches Ok(best) ==> ({
                let h = parse_hand(string@)->Ok_0;
                let all = sort_by_points(
                    evaluations(
                        self.adopted_yakuman_list@,
                        self.adopted_yaku_list@,
                        h.0 + open_tiles(h.1),
                        flat_waits(decompose(h.0, h.1), h.2, draw, self.prevalent_wind, self.seat_wind),
                        draw,
                        situation@,
                    ),
                );
                &&& best is None <==> all.len() == 0
                &&& best matches Some(e) ==> e@ == all.last()
            }),
    {
        let hand = Hand::parse(string)?;
        proof {
            lemma_parse_hand_wf_result(string@);
            lemma_decompose_bounded(hand.tiles@, opens_view(hand.open_sets@));
        }
        let parsed_hand = ParsedHand::new(&hand);
        proof {
            assert forall|k: int| 0 <= k < parsed_hand.nodes@.len() implies node_bounded((#[trigger] parsed_hand.nodes@[k])@) by {
                assert(nodes_view(parsed_hand.nodes@)[k] == parsed_hand.nodes@[k]@);
            }
        }
        Ok(self.evaluate(&parsed_hand, draw, situation))
    }

    /// Reads `string` and returns all its candidates, ranked.
    pub fn evaluate_all_str(&self, string: &str, draw: bool, situation: &Vec<SituationYaku>) -> (r: Result<Vec<Evaluated>, HandError>)
        requires
            self.wf(),
            situation_han(situation@) + 512 <= u32::MAX,
        ensures
            r is Ok <==> parse_hand(string@) is Ok,
            r matches Err(e) ==> parse_hand(string@) == Err::<(Seq<Tile>, Seq<OpenView>, Tile), HandError>(e),
            r matches Ok(all) ==> ({
                let h = parse_hand(string@)->Ok_0;
                evaluated_view(all@) == sort_by_points(
                    evaluations(
                        self.adopted_yakuman_list@,
                        self.adopted_yaku_list@,
                        h.0 + open_tiles(h.1),
                        flat_waits(decompose(h.0, h.1), h.2, draw, self.prevalent_wind, self.seat_wind),
                        draw,
                        situation@,
                    ),
                )
            }),
    {
        let hand = Hand::parse(string)?;
        proof {
            lemma_parse_hand_wf_result(string@);
            lemma_decompose_bounded(hand.tiles@, opens_view(hand.open_sets@));
        }
        let parsed_hand = ParsedHand::new(&hand);
        proof {
            assert forall|k: int| 0 <= k < parsed_hand.nodes@.len() implies node_bounded((#[trigger] parsed_hand.nodes@[k])@) by {
                assert(nodes_view(parsed_hand.nodes@)[k] == parsed_hand.nodes@[k]@);
            }
        }
        Ok(self.evaluate_all(&parsed_hand, draw, situation))
    }
}

} // verus!

verus! {

/// A fallback chain of yaku grants at most one of its variants: a stronger
/// variant that applies masks every weaker one.
pub proof fn lemma_yaku_chain_reports_one(y: HandYaku, w: WaitView, draw: bool)
    ensures
        yaku_chain(y, w, draw).1.len() <= 1,
        yaku_chain(y, w, draw).1.len() == 0 ==> yaku_chain(y, w, draw).0 == 0,
        rule_han(y.rule, w, draw) is Some ==> yaku_chain(y, w, draw).1 == seq![y.name@],
    decreases y,
{
    if rule_han(y.rule, w, draw) is None {
        if let Some(b) = y.sub {
            lemma_yaku_chain_reports_one(*b, w, draw);
        }
    }
}

/// A fallback chain of yakuman (the thirteen-sided wait before plain
/// thirteen orphans, big before little four winds) reports at most one of
/// its variants, and only the multiplier of that one.
pub proof fn lemma_yakuman_chain_reports_one(y: Yakuman, w: WaitView, orig: Seq<Tile>)
    ensures
        yakuman_chain(y, w, orig).1.len() <= 1,
        yakuman_chain(y, w, orig).1.len() == 0 <==> yakuman_chain(y, w, orig).0 == 0,
        yakuman_value(y.rule, w, orig) != 0 ==> yakuman_chain(y, w, orig) == (
            yakuman_value(y.rule, w, orig) as int,
            seq![y.name@],
        ),
    decreases y,
{
    if yakuman_value(y.rule, w, orig) == 0 {
        if let Some(b) = y.sub {
            lemma_yakuman_chain_reports_one(*b, w, orig);
        }
    } else {
        assert(yakuman_value(y.rule, w, orig) <= 2) by {
            match y.rule {
                YakumanRule::ThirteenOrphans13Wait => {},
                _ => {},
            }
        }
    }
}

proof fn lemma_waits_upto_members(n: NodeView, k: int, winning: Tile, fu: int)
    requires
        0 <= fu <= 1000,
    ensures
        forall|i: int|
            0 <= i < waits_upto(n, k, winning, fu).len() ==> (#[trigger] waits_upto(n, k, winning, fu)[i]).node == n
                && (waits_upto(n, k, winning, fu)[i].kind == WaitKind::Ryanmen ==> waits_upto(n, k, winning, fu)[i].fu.0 == fu),
    decreases k,
{
    if k > 0 && k <= n.sets.len() {
        lemma_waits_upto_members(n, k - 1, winning, fu);
        let p = waits_upto(n, k - 1, winning, fu);
        let x = waits_upto(n, k, winning, fu);
        assert forall|i: int| 0 <= i < x.len() implies (#[trigger] x[i]).node == n && (x[i].kind == WaitKind::Ryanmen ==> x[i].fu.0 == fu) by {
            if i < p.len() {
                assert(x[i] == p[i]);
            }
        }
    }
}

proof fn lemma_runs_earn_no_fu(sets: Seq<MeldView>)
    requires
        forall|j: int| 0 <= j < sets.len() ==> (#[trigger] sets[j]).0 != MeldKind::Pung,
    ensures
        sets_fu(sets) == 0,
    decreases sets.len(),
{
    if sets.len() > 0 {
        let d = sets.drop_last();
        assert forall|j: int| 0 <= j < d.len() implies (#[trigger] d[j]).0 != MeldKind::Pung by {
            assert(d[j] == sets[j]);
        }
        lemma_runs_earn_no_fu(d);
        assert(sets[sets.len() - 1].0 != MeldKind::Pung);
    }
}

/// A fully concealed reading with no triplet and no pair of value, won on a
/// two-sided wait, is a no-points hand: the yaku grants 1 han and fixes the
/// fu at 30, or 20 on a self-draw.
pub proof fn lemma_no_points_hand(
    n: NodeView,
    winning: Tile,
    draw: bool,
    prevalent: Option<Tile>,
    seat: Option<Tile>,
    i: int,
)
    requires
        n.open_sets.len() == 0,
        forall|j: int| 0 <= j < n.sets.len() ==> (#[trigger] n.sets[j]).0 != MeldKind::Pung,
        !valuable_pair(n, prevalent, seat),
        0 <= i < waits_of(n, winning, draw, prevalent, seat).len(),
        waits_of(n, winning, draw, prevalent, seat)[i].kind == WaitKind::Ryanmen,
    ensures
        rule_han(YakuRule::NoPoints, waits_of(n, winning, draw, prevalent, seat)[i], draw) == Some(1u32),
        fu_rule_value(FuRule::NoPoints, draw) == if draw { 20u32 } else { 30u32 },
{
    lemma_runs_earn_no_fu(n.sets);
    assert(opens_fu(n.open_sets) == 0);
    let base = base_fu(n, draw, prevalent, seat);
    assert(base == if draw { 22int } else { 30int });
    lemma_waits_upto_members(n, n.sets.len() as int, winning, base);
}

/// A concealed hand that has no regular reading and sorts into seven
/// couples of equal tiles has exactly one reading, the seven pairs, and the
/// seven-pairs yaku grants its candidates 2 han at a fixed 25 fu.
pub proof fn lemma_seven_pairs_hand(tiles: Seq<Tile>, winning: Tile, draw: bool, i: int)
    requires
        expand(root_nodes(tiles, Seq::empty())).len() == 0,
        seven_pairs_node(tiles) is Some,
        0 <= i < waits_of(seven_pairs_node(tiles)->0, winning, draw, None, None).len(),
    ensures
        decompose(tiles, Seq::empty()) == seq![seven_pairs_node(tiles)->0],
        rule_han(YakuRule::SevenPairs, waits_of(seven_pairs_node(tiles)->0, winning, draw, None, None)[i], draw)
            == Some(2u32),
        fu_rule_value(FuRule::SevenPairs, draw) == 25,
{
    let n = seven_pairs_node(tiles)->0;
    let sorted = canonical(tiles);
    lemma_adjacent_pairs_kinds(sorted, sorted.len() as int / 2);
    lemma_base_fu_bound_small(n, draw);
    lemma_waits_upto_members(n, n.sets.len() as int, winning, base_fu(n, draw, None, None));
    assert(closed_spec(n));
}

proof fn lemma_adjacent_pairs_kinds(s: Seq<Tile>, k: int)
    ensures
        forall|j: int| 0 <= j < adjacent_pairs(s, k).len() ==> (#[trigger] adjacent_pairs(s, k)[j]).0 == MeldKind::Pair,
        adjacent_pairs(s, k).len() <= if k < 0 { 0 } else { k },
    decreases k,
{
    if k > 0 && 2 * k <= s.len() {
        lemma_adjacent_pairs_kinds(s, k - 1);
        let p = adjacent_pairs(s, k - 1);
        let x = adjacent_pairs(s, k);
        assert forall|j: int| 0 <= j < x.len() implies (#[trigger] x[j]).0 == MeldKind::Pair by {
            if j < p.len() {
                assert(x[j] == p[j]);
            }
        }
    }
}

proof fn lemma_base_fu_bound_small(n: NodeView, draw: bool)
    requires
        n.sets.len() <= 16,
        n.open_sets.len() == 0,
    ensures
        0 <= base_fu(n, draw, None, None) <= 1000,
{
    lemma_sets_fu_bound(n.sets);
}

} // verus!

verus! {

/// The reading holds a triplet or quad of the numbered tile `t`, concealed
/// or declared.
pub open spec fn has_triplet_of(n: NodeView, t: Tile) -> bool {
    !(t is Honour) && (
    (exists|j: int| 0 <= j < n.sets.len() && (#[trigger] n.sets[j]).0 == MeldKind::Pung && n.sets[j].1.len() > 0 && n.sets[j].1[0] == t)
        || (exists|j: int|
        0 <= j < n.open_sets.len() && (#[trigger] n.open_sets[j]).0 != OpenKind::Chow && n.open_sets[j].1.len() > 0
            && n.open_sets[j].1[0] == t))
}

proof fn lemma_meld_triplet_member(ms: Seq<MeldView>, j: int)
    requires
        0 <= j < ms.len(),
        ms[j].0 == MeldKind::Pung,
        numbered_group(ms[j].1),
    ensures
        meld_triplet_tiles(ms).contains(ms[j].1[0]),
    decreases ms.len(),
{
    let l = meld_triplet_tiles(ms);
    let p = meld_triplet_tiles(ms.drop_last());
    if j == ms.len() - 1 {
        assert(l[p.len() as int] == ms[j].1[0]);
    } else {
        assert(ms.drop_last()[j] == ms[j]);
        lemma_meld_triplet_member(ms.drop_last(), j);
        let k = choose|k: int| 0 <= k < p.len() && p[k] == ms[j].1[0];
        assert(l[k] == p[k]);
    }
}

proof fn lemma_open_triplet_member(os: Seq<OpenView>, j: int)
    requires
        0 <= j < os.len(),
        os[j].0 != OpenKind::Chow,
        numbered_group(os[j].1),
    ensures
        open_triplet_tiles(os).contains(os[j].1[0]),
    decreases os.len(),
{
    let l = open_triplet_tiles(os);
    let p = open_triplet_tiles(os.drop_last());
    if j == os.len() - 1 {
        assert(l[p.len() as int] == os[j].1[0]);
    } else {
        assert(os.drop_last()[j] == os[j]);
        lemma_open_triplet_member(os.drop_last(), j);
        let k = choose|k: int| 0 <= k < p.len() && p[k] == os[j].1[0];
        assert(l[k] == p[k]);
    }
}

proof fn lemma_triplet_tiles_member(n: NodeView, t: Tile)
    requires
        has_triplet_of(n, t),
    ensures
        triplet_tiles(n).contains(t),
{
    let a = meld_triplet_tiles(n.sets);
    let b = open_triplet_tiles(n.open_sets);
    if exists|j: int| 0 <= j < n.sets.len() && (#[trigger] n.sets[j]).0 == MeldKind::Pung && n.sets[j].1.len() > 0 && n.sets[j].1[0] == t {
        let j = choose|j: int| 0 <= j < n.sets.len() && (#[trigger] n.sets[j]).0 == MeldKind::Pung && n.sets[j].1.len() > 0 && n.sets[j].1[0] == t;
        lemma_meld_triplet_member(n.sets, j);
        let k = choose|k: int| 0 <= k < a.len() && a[k] == t;
        assert((a + b)[k] == t);
    } else {
        let j = choose|j: int|
            0 <= j < n.open_sets.len() && (#[trigger] n.open_sets[j]).0 != OpenKind::Chow && n.open_sets[j].1.len() > 0
                && n.open_sets[j].1[0] == t;
        lemma_open_triplet_member(n.open_sets, j);
        let k = choose|k: int| 0 <= k < b.len() && b[k] == t;
        assert((a + b)[a.len() + k] == t);
    }
}

/// Triplets (or quads) of the same rank in all three suits earn the
/// three-colour-triplets yaku its 2 han.
pub proof fn lemma_three_colour_triplets(w: WaitView, draw: bool, r: u8)
    requires
        has_triplet_of(w.node, Tile::Character(r)),
        has_triplet_of(w.node, Tile::Circle(r)),
        has_triplet_of(w.node, Tile::Bamboo(r)),
    ensures
        rule_han(YakuRule::ThreeColourTriplets, w, draw) == Some(2u32),
{
    let l = triplet_tiles(w.node);
    lemma_triplet_tiles_member(w.node, Tile::Character(r));
    lemma_triplet_tiles_member(w.node, Tile::Circle(r));
    lemma_triplet_tiles_member(w.node, Tile::Bamboo(r));
    let i1 = choose|k: int| 0 <= k < l.len() && l[k] == Tile::Character(r);
    let i2 = choose|k: int| 0 <= k < l.len() && l[k] == Tile::Circle(r);
    let i3 = choose|k: int| 0 <= k < l.len() && l[k] == Tile::Bamboo(r);
    assert(i1 != i2 && i2 != i3 && i1 != i3);
    assert(l.len() >= 3);
    assert(all_three_suits(l, rank(l[i1]) as u8));
    assert(three_colours(l));
}

} // verus!

verus! {

/// In the default catalogue, the thirteen-orphans chain reports the
/// thirteen-sided wait (2 yakuman) when the winning tile made the pair of a
/// full set of terminals and honours, else plain thirteen orphans (1
/// yakuman) when the hand holds every terminal and honour and nothing else,
/// and never both.
pub proof fn lemma_thirteen_orphans_chain(v: Seq<Yakuman>, w: WaitView, orig: Seq<Tile>)
    requires
        is_default_yakuman_list(v),
    ensures
        thirteen_wait(orig, w.winning) ==> yakuman_chain(v[0], w, orig) == (
            2int,
            seq!["国士無双一三面待ち / Thirteen orphans 13 wait"@],
        ),
        !thirteen_wait(orig, w.winning) && holds_all_orphans(orig) && crate::groups::all_yaotyu(orig)
            ==> yakuman_chain(v[0], w, orig) == (1int, seq!["国士無双 / Thirteen orphans"@]),
        !thirteen_wait(orig, w.winning) && !(holds_all_orphans(orig) && crate::groups::all_yaotyu(orig))
            ==> yakuman_chain(v[0], w, orig).0 == 0,
{
    let b = *v[0].sub->0;
    assert(b.sub is None);
    assert(yakuman_chain(b, w, orig) == if yakuman_value(b.rule, w, orig) != 0 {
        (yakuman_value(b.rule, w, orig) as int, seq![b.name@])
    } else {
        (0int, Seq::<Seq<char>>::empty())
    });
}

} // verus!
