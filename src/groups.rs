//! Groups of tiles: the tile-sequence predicates, concealed melds, declared
//! melds, and the hand itself.
use vstd::prelude::*;
use crate::tiles::{Tile, Honour, tile_key, rank, same_suit, is_suit_tile, is_terminal_tile, is_yaotyu_tile, tile_wf};
use crate::score::Fu;

verus! {

/// Why a hand could not be read.
#[derive(Clone, Copy, Debug, PartialEq, Eq, Structural)]
pub enum HandError {
    /// A rank of 0 in the notation.
    InvalidNumber,
    /// A character that no tile or suit marker stands for.
    InvalidCharacter,
    /// A run of ranks that no suit marker closes.
    Incomplete,
    /// Concealed tiles plus three per declared meld come to under 14.
    TooFewTiles,
    /// Concealed tiles plus three per declared meld come to over 14.
    TooManyTiles,
    /// A meld that is neither a triplet, a run nor a quad of the given length.
    InvalidMeld,
    /// The tiles form no winning shape.
    NoWinningShape,
}

pub open spec fn any_yaotyu(s: Seq<Tile>) -> bool {
    exists|i: int| 0 <= i < s.len() && is_yaotyu_tile(#[trigger] s[i])
}

pub open spec fn all_yaotyu(s: Seq<Tile>) -> bool {
    forall|i: int| 0 <= i < s.len() ==> is_yaotyu_tile(#[trigger] s[i])
}

pub open spec fn any_terminal(s: Seq<Tile>) -> bool {
    exists|i: int| 0 <= i < s.len() && is_terminal_tile(#[trigger] s[i])
}

pub open spec fn all_terminal(s: Seq<Tile>) -> bool {
    forall|i: int| 0 <= i < s.len() ==> is_terminal_tile(#[trigger] s[i])
}

/// Each tile is followed by the tile of its suit one rank higher.
pub open spec fn is_sequential_seq(s: Seq<Tile>) -> bool {
    forall|i: int|
        0 <= i < s.len() - 1 ==> is_suit_tile(#[trigger] s[i]) && same_suit(s[i], s[i + 1])
            && rank(s[i + 1]) == rank(s[i]) + 1
}

/// Non-empty, and every tile the same.
pub open spec fn is_flat_seq(s: Seq<Tile>) -> bool {
    s.len() > 0 && forall|i: int| 0 <= i < s.len() ==> #[trigger] s[i] == s[0]
}

/// How many times `t` occurs in `s`.
pub open spec fn count_tile(s: Seq<Tile>, t: Tile) -> nat
    decreases s.len(),
{
    if s.len() == 0 {
        0
    } else {
        count_tile(s.drop_last(), t) + if s.last() == t { 1nat } else { 0nat }
    }
}

pub open spec fn rank_sum(s: Seq<Tile>) -> int
    decreases s.len(),
{
    if s.len() == 0 {
        0
    } else {
        rank_sum(s.drop_last()) + rank(s.last())
    }
}

/// The suit of the first tile carrying the sum of all ranks; used to compare
/// runs and triplets across suits.
pub open spec fn sum_tile_of(s: Seq<Tile>) -> Option<Tile> {
    if s.len() == 0 {
        None
    } else {
        match s[0] {
            Tile::Character(_) => Some(Tile::Character(rank_sum(s) as u8)),
            Tile::Circle(_) => Some(Tile::Circle(rank_sum(s) as u8)),
            Tile::Bamboo(_) => Some(Tile::Bamboo(rank_sum(s) as u8)),
            Tile::Honour(_) => None,
        }
    }
}

pub open spec fn tiles_wf(s: Seq<Tile>) -> bool {
    forall|i: int| 0 <= i < s.len() ==> tile_wf(#[trigger] s[i])
}

pub proof fn lemma_rank_sum_bound(s: Seq<Tile>)
    requires
        tiles_wf(s),
    ensures
        0 <= rank_sum(s) <= 9 * s.len(),
    decreases s.len(),
{
    if s.len() > 0 {
        assert(tiles_wf(s.drop_last())) by {
            assert forall|i: int| 0 <= i < s.drop_last().len() implies tile_wf(
                #[trigger] s.drop_last()[i],
            ) by {
                assert(s.drop_last()[i] == s[i]);
            }
        }
        lemma_rank_sum_bound(s.drop_last());
        assert(tile_wf(s[s.len() - 1]));
    }
}

pub proof fn lemma_count_bound(s: Seq<Tile>, t: Tile)
    ensures
        count_tile(s, t) <= s.len(),
    decreases s.len(),
{
    if s.len() > 0 {
        lemma_count_bound(s.drop_last(), t);
    }
}

/// Predicates over a group of tiles.
pub trait Tiles {
    /// The tiles of the group.
    spec fn tile_seq(&self) -> Seq<Tile>;

    /// The tiles that `sum_tile` adds up.
    spec fn sum_seq(&self) -> Seq<Tile>;

    /// Some tile is a terminal or an honour.
    fn contains_yaotyu(&self) -> (r: bool)
        ensures
            r == any_yaotyu(self.tile_seq()),
    ;

    /// Every tile is a terminal or an honour.
    fn all_yaotyu(&self) -> (r: bool)
        ensures
            r == all_yaotyu(self.tile_seq()),
    ;

    /// Some tile is a terminal.
    fn contains_terminal(&self) -> (r: bool)
        ensures
            r == any_terminal(self.tile_seq()),
    ;

    /// Every tile is a terminal.
    fn all_terminal(&self) -> (r: bool)
        ensures
            r == all_terminal(self.tile_seq()),
    ;

    /// The tiles run in consecutive ranks of one suit (1,2,3 or 6,7,8,9).
    fn is_sequential(&self) -> (r: bool)
        ensures
            r == is_sequential_seq(self.tile_seq()),
    ;

    /// The tiles are all the same (1,1,1 or 6,6,6,6).
    fn is_flat(&self) -> (r: bool)
        ensures
            r == is_flat_seq(self.tile_seq()),
    ;

    /// How many of the tiles equal `tile`.
    fn count(&self, tile: &Tile) -> (r: u8)
        requires
            self.tile_seq().len() <= 255,
        ensures
            r == count_tile(self.tile_seq(), *tile),
    ;

    /// The suit of the group with the sum of its ranks, for comparing groups
    /// across suits; `None` for an honour group or an empty one.
    fn sum_tile(&self) -> (r: Option<Tile>)
        requires
            tiles_wf(self.sum_seq()),
            self.sum_seq().len() <= 28,
        ensures
            r == sum_tile_of(self.sum_seq()),
    ;
}

impl Tiles for Vec<Tile> {
    open spec fn tile_seq(&self) -> Seq<Tile> {
        self@
    }

    open spec fn sum_seq(&self) -> Seq<Tile> {
        self@
    }

    fn contains_yaotyu(&self) -> (r: bool) {
        let mut i: usize = 0;
        while i < self.len()
            invariant
                i <= self.len(),
                forall|j: int| 0 <= j < i ==> !is_yaotyu_tile(#[trigger] self@[j]),
            decreases self.len() - i,
        {
            if self[i].is_yaotyu() {
                return true;
            }
            i += 1;
        }
        false
    }

    fn all_yaotyu(&self) -> (r: bool) {
        let mut i: usize = 0;
        while i < self.len()
            invariant
                i <= self.len(),
                forall|j: int| 0 <= j < i ==> is_yaotyu_tile(#[trigger] self@[j]),
            decreases self.len() - i,
        {
            if !self[i].is_yaotyu() {
                return false;
            }
            i += 1;
        }
        true
    }

    fn contains_terminal(&self) -> (r: bool) {
        let mut i: usize = 0;
        while i < self.len()
            invariant
                i <= self.len(),
                forall|j: int| 0 <= j < i ==> !is_terminal_tile(#[trigger] self@[j]),
            decreases self.len() - i,
        {
            if self[i].is_terminal() {
                return true;
            }
            i += 1;
        }
        false
    }

    fn all_terminal(&self) -> (r: bool) {
        let mut i: usize = 0;
        while i < self.len()
            invariant
                i <= self.len(),
                forall|j: int| 0 <= j < i ==> is_terminal_tile(#[trigger] self@[j]),
            decreases self.len() - i,
        {
            if !self[i].is_terminal() {
                return false;
            }
            i += 1;
        }
        true
    }

    fn is_sequential(&self) -> (r: bool) {
        let mut i: usize = 1;
        while i < self.len()
            invariant
                i >= 1,
                forall|j: int|
                    0 <= j < i - 1 ==> is_suit_tile(#[trigger] self@[j]) && same_suit(
                        self@[j],
                        self@[j + 1],
                    ) && rank(self@[j + 1]) == rank(self@[j]) + 1,
            decreases self.len() - i,
        {
            let a = self[i - 1];
            let b = self[i];
            let ok = match (a, b) {
                (Tile::Character(x), Tile::Character(y)) => y as u16 == x as u16 + 1,
                (Tile::Circle(x), Tile::Circle(y)) => y as u16 == x as u16 + 1,
                (Tile::Bamboo(x), Tile::Bamboo(y)) => y as u16 == x as u16 + 1,
                _ => false,
            };
            if !ok {
                return false;
            }
            i += 1;
        }
        true
    }

    fn is_flat(&self) -> (r: bool) {
        if self.len() == 0 {
            return false;
        }
        let first = self[0];
        let mut i: usize = 1;
        while i < self.len()
            invariant
                1 <= i <= self.len(),
                first == self@[0],
                forall|j: int| 0 <= j < i ==> #[trigger] self@[j] == self@[0],
            decreases self.len() - i,
        {
            if self[i] != first {
                return false;
            }
            i += 1;
        }
        true
    }

    fn count(&self, tile: &Tile) -> (r: u8) {
        let mut n: u8 = 0;
        let mut i: usize = 0;
        while i < self.len()
            invariant
                i <= self.len(),
                self@.len() <= 255,
                n == count_tile(self@.subrange(0, i as int), *tile),
            decreases self.len() - i,
        {
            proof {
                assert(self@.subrange(0, i + 1).drop_last() == self@.subrange(0, i as int));
                lemma_count_bound(self@.subrange(0, i as int), *tile);
            }
            if self[i] == *tile {
                n += 1;
            }
            i += 1;
        }
        assert(self@.subrange(0, self.len() as int) == self@);
        n
    }

    fn sum_tile(&self) -> (r: Option<Tile>) {
        let mut sum: u8 = 0;
        let mut i: usize = 0;
        while i < self.len()
            invariant
                i <= self.len(),
                self@.len() <= 28,
                tiles_wf(self@),
                sum == rank_sum(self@.subrange(0, i as int)),
            decreases self.len() - i,
        {
            proof {
                assert(self@.subrange(0, i + 1).drop_last() == self@.subrange(0, i as int));
                assert(tiles_wf(self@.subrange(0, i + 1)));
                lemma_rank_sum_bound(self@.subrange(0, i + 1));
            }
            sum = sum + self[i].rank();
            i += 1;
        }
        assert(self@.subrange(0, self.len() as int) == self@);
        if self.len() == 0 {
            return None;
        }
        match self[0] {
            Tile::Character(_) => Some(Tile::Character(sum)),
            Tile::Circle(_) => Some(Tile::Circle(sum)),
            Tile::Bamboo(_) => Some(Tile::Bamboo(sum)),
            Tile::Honour(_) => None,
        }
    }
}

/// A copy of `v`, tile by tile.
pub fn copy_tiles(v: &Vec<Tile>) -> (r: Vec<Tile>)
    ensures
        r@ == v@,
{
    let mut r: Vec<Tile> = Vec::new();
    let mut i: usize = 0;
    while i < v.len()
        invariant
            i <= v.len(),
            r@ == v@.subrange(0, i as int),
        decreases v.len() - i,
    {
        r.push(v[i]);
        i += 1;
    }
    r
}

} // verus!

verus! {

pub open spec fn is_sorted_tiles(s: Seq<Tile>) -> bool {
    forall|i: int, j: int| 0 <= i < j < s.len() ==> tile_key(#[trigger] s[i]) <= tile_key(#[trigger] s[j])
}

/// `r` with `t` placed after every tile that does not sort above it.
pub open spec fn insert_sorted(r: Seq<Tile>, t: Tile) -> Seq<Tile>
    decreases r.len(),
{
    if r.len() == 0 {
        seq![t]
    } else if tile_key(r.last()) <= tile_key(t) {
        r.push(t)
    } else {
        insert_sorted(r.drop_last(), t).push(r.last())
    }
}

/// The tiles of `s` in canonical order.
pub open spec fn canonical(s: Seq<Tile>) -> Seq<Tile>
    decreases s.len(),
{
    if s.len() == 0 {
        s
    } else {
        insert_sorted(canonical(s.drop_last()), s.last())
    }
}

proof fn lemma_insert_at(r: Seq<Tile>, t: Tile, k: int)
    requires
        0 <= k <= r.len(),
        forall|j: int| k <= j < r.len() ==> tile_key(#[trigger] r[j]) > tile_key(t),
        k == 0 || tile_key(r[k - 1]) <= tile_key(t),
    ensures
        insert_sorted(r, t) == r.subrange(0, k).push(t) + r.subrange(k, r.len() as int),
    decreases r.len(),
{
    if r.len() == 0 {
        assert(r.subrange(0, k).push(t) + r.subrange(k, r.len() as int) =~= seq![t]);
    } else if tile_key(r.last()) <= tile_key(t) {
        assert(k == r.len());
        assert(r.subrange(0, k).push(t) + r.subrange(k, r.len() as int) =~= r.push(t));
    } else {
        let d = r.drop_last();
        assert(k < r.len());
        assert forall|j: int| k <= j < d.len() implies tile_key(#[trigger] d[j]) > tile_key(t) by {
            assert(d[j] == r[j]);
        }
        lemma_insert_at(d, t, k);
        assert(d.subrange(0, k).push(t) + d.subrange(k, d.len() as int)
            == insert_sorted(d, t));
        assert((d.subrange(0, k).push(t) + d.subrange(k, d.len() as int)).push(r.last())
            =~= r.subrange(0, k).push(t) + r.subrange(k, r.len() as int));
    }
}

proof fn lemma_insert_sorted_props(r: Seq<Tile>, t: Tile)
    ensures
        is_sorted_tiles(r) ==> is_sorted_tiles(insert_sorted(r, t)),
        insert_sorted(r, t).to_multiset() == r.to_multiset().insert(t),
        insert_sorted(r, t).len() == r.len() + 1,
    decreases r.len(),
{
    broadcast use vstd::seq_lib::group_to_multiset_ensures;

    if r.len() == 0 {
        assert(seq![t] == Seq::<Tile>::empty().push(t));
    } else if tile_key(r.last()) <= tile_key(t) {
    } else {
        let d = r.drop_last();
        lemma_insert_sorted_props(d, t);
        assert(r == d.push(r.last()));
        assert(d.to_multiset().insert(t).insert(r.last()) =~= d.to_multiset().insert(
            r.last(),
        ).insert(t));
        if is_sorted_tiles(r) {
            let x = insert_sorted(d, t);
            assert forall|i: int, j: int|
                0 <= i < j < x.push(r.last()).len() implies tile_key(
                #[trigger] x.push(r.last())[i],
            ) <= tile_key(#[trigger] x.push(r.last())[j]) by {
                if j == x.len() {
                    // every element of x is t or an element of d, all at most r.last()
                    assert(x.to_multiset().contains(x[i]));
                    assert(d.to_multiset().insert(t).contains(x[i]));
                    if x[i] != t {
                        assert(d.to_multiset().contains(x[i]));
                        assert(d.contains(x[i]));
                        let m = choose|m: int| 0 <= m < d.len() && d[m] == x[i];
                        assert(d[m] == r[m]);
                    }
                }
            }
        }
    }
}

pub proof fn lemma_canonical_props(s: Seq<Tile>)
    ensures
        is_sorted_tiles(canonical(s)),
        canonical(s).to_multiset() == s.to_multiset(),
        canonical(s).len() == s.len(),
    decreases s.len(),
{
    broadcast use vstd::seq_lib::group_to_multiset_ensures;

    if s.len() > 0 {
        lemma_canonical_props(s.drop_last());
        lemma_insert_sorted_props(canonical(s.drop_last()), s.last());
        assert(s == s.drop_last().push(s.last()));
    }
}

/// Sorting a sorted sequence changes nothing.
pub proof fn lemma_canonical_of_sorted(s: Seq<Tile>)
    requires
        is_sorted_tiles(s),
    ensures
        canonical(s) == s,
    decreases s.len(),
{
    if s.len() > 0 {
        lemma_canonical_of_sorted(s.drop_last());
        assert(s == s.drop_last().push(s.last()));
        if s.len() > 1 {
            assert(s.drop_last().last() == s[s.len() - 2]);
        }
    }
}

/// Putting tiles in canonical order twice gives what once gives.
pub proof fn lemma_canonical_idempotent(s: Seq<Tile>)
    ensures
        canonical(canonical(s)) == canonical(s),
{
    lemma_canonical_props(s);
    lemma_canonical_of_sorted(canonical(s));
}

fn insert_tile(r: &mut Vec<Tile>, t: Tile)
    ensures
        final(r)@ == insert_sorted(old(r)@, t),
{
    let mut k: usize = r.len();
    let tk = t.key();
    while k > 0 && r[k - 1].key() > tk
        invariant
            k <= r.len(),
            tk as int == tile_key(t),
            forall|j: int| k <= j < r.len() ==> tile_key(#[trigger] r@[j]) > tile_key(t),
        decreases k,
    {
        k -= 1;
    }
    proof {
        lemma_insert_at(r@, t, k as int);
    }
    r.insert(k, t);
    assert(r@ =~= old(r)@.subrange(0, k as int).push(t) + old(r)@.subrange(
        k as int,
        old(r)@.len() as int,
    ));
}

/// The tiles of `v` in canonical order.
pub fn sorted_tiles(v: &Vec<Tile>) -> (r: Vec<Tile>)
    ensures
        r@ == canonical(v@),
{
    let mut r: Vec<Tile> = Vec::new();
    let mut i: usize = 0;
    while i < v.len()
        invariant
            i <= v.len(),
            r@ == canonical(v@.subrange(0, i as int)),
        decreases v.len() - i,
    {
        assert(v@.subrange(0, i + 1).drop_last() == v@.subrange(0, i as int));
        insert_tile(&mut r, v[i]);
        i += 1;
    }
    assert(v@.subrange(0, v.len() as int) == v@);
    r
}

} // verus!

verus! {

/// The shape of a concealed meld.
#[derive(Clone, Copy, Debug, PartialEq, Eq, Structural)]
pub enum MeldKind {
    Chow,
    Pung,
    Pair,
    /// The twelve single tiles beside the pair of a thirteen-orphans hand; no
    /// real meld.
    Body,
}

/// The shape of a declared meld.
#[derive(Clone, Copy, Debug, PartialEq, Eq, Structural)]
pub enum OpenKind {
    Pung,
    Chow,
    Kong,
    ConcealedKong,
}

/// A meld formed inside the concealed hand.
#[derive(Clone, Debug, PartialEq)]
pub enum Meld {
    /// Three consecutive tiles of one suit.
    Chow(Vec<Tile>),
    /// Three identical tiles.
    Pung(Vec<Tile>),
    /// Two identical tiles.
    Pair(Vec<Tile>),
    /// The rest of a thirteen-orphans hand.
    Body(Vec<Tile>),
}

/// A meld declared by calling a discard, or a concealed quad shown.
#[derive(Clone, Debug, PartialEq)]
pub enum OpenSet {
    Pung(Vec<Tile>),
    Chow(Vec<Tile>),
    Kong(Vec<Tile>),
    ConcealedKong(Vec<Tile>),
}

impl View for Meld {
    type V = (MeldKind, Seq<Tile>);

    open spec fn view(&self) -> (MeldKind, Seq<Tile>) {
        match self {
            Meld::Chow(v) => (MeldKind::Chow, v@),
            Meld::Pung(v) => (MeldKind::Pung, v@),
            Meld::Pair(v) => (MeldKind::Pair, v@),
            Meld::Body(v) => (MeldKind::Body, v@),
        }
    }
}

impl View for OpenSet {
    type V = (OpenKind, Seq<Tile>);

    open spec fn view(&self) -> (OpenKind, Seq<Tile>) {
        match self {
            OpenSet::Pung(v) => (OpenKind::Pung, v@),
            OpenSet::Chow(v) => (OpenKind::Chow, v@),
            OpenSet::Kong(v) => (OpenKind::Kong, v@),
            OpenSet::ConcealedKong(v) => (OpenKind::ConcealedKong, v@),
        }
    }
}

/// The shape that `s` forms as a concealed meld, if any.
pub open spec fn meld_kind_of(s: Seq<Tile>) -> Option<MeldKind> {
    if s.len() == 3 && is_sequential_seq(s) {
        Some(MeldKind::Chow)
    } else if s.len() == 2 && is_flat_seq(s) {
        Some(MeldKind::Pair)
    } else if s.len() == 3 && is_flat_seq(s) {
        Some(MeldKind::Pung)
    } else {
        None
    }
}

/// The shape that `s`, sorted, forms as a called meld, if any.
pub open spec fn open_kind_of(s: Seq<Tile>) -> Option<OpenKind> {
    if s.len() == 3 && is_flat_seq(s) {
        Some(OpenKind::Pung)
    } else if s.len() == 3 && is_sequential_seq(s) {
        Some(OpenKind::Chow)
    } else if s.len() == 4 && is_flat_seq(s) {
        Some(OpenKind::Kong)
    } else {
        None
    }
}

pub open spec fn all_character(s: Seq<Tile>) -> bool {
    forall|i: int| 0 <= i < s.len() ==> (#[trigger] s[i]) is Character
}

pub open spec fn all_circle(s: Seq<Tile>) -> bool {
    forall|i: int| 0 <= i < s.len() ==> (#[trigger] s[i]) is Circle
}

pub open spec fn all_bamboo(s: Seq<Tile>) -> bool {
    forall|i: int| 0 <= i < s.len() ==> (#[trigger] s[i]) is Bamboo
}

pub open spec fn all_honor(s: Seq<Tile>) -> bool {
    forall|i: int| 0 <= i < s.len() ==> (#[trigger] s[i]) is Honour
}

/// Fu of a concealed meld: a triplet earns 4, doubled for terminals and honours.
pub open spec fn set_fu(m: (MeldKind, Seq<Tile>)) -> int {
    if m.0 == MeldKind::Pung {
        if all_yaotyu(m.1) { 8 } else { 4 }
    } else {
        0
    }
}

/// Fu of a declared meld.
pub open spec fn open_set_fu(m: (OpenKind, Seq<Tile>)) -> int {
    match m.0 {
        OpenKind::Pung => if all_yaotyu(m.1) { 4 } else { 2 },
        OpenKind::Kong => if all_yaotyu(m.1) { 16 } else { 8 },
        OpenKind::ConcealedKong => if all_yaotyu(m.1) { 32 } else { 16 },
        OpenKind::Chow => 0,
    }
}

/// Every tile of `s` is among `tiles`.
pub open spec fn consists_of_seq(s: Seq<Tile>, tiles: Seq<Tile>) -> bool {
    forall|i: int| 0 <= i < s.len() ==> tiles.contains(#[trigger] s[i])
}

/// Properties of a meld.
pub trait Sets {
    /// The tiles of the meld.
    spec fn meld_tiles(&self) -> Seq<Tile>;

    /// The fu that the meld earns.
    spec fn meld_fu(&self) -> int;

    fn fu(&self) -> (r: Fu)
        ensures
            r.0 == self.meld_fu(),
    ;

    fn all_character(&self) -> (r: bool)
        ensures
            r == all_character(self.meld_tiles()),
    ;

    fn all_circle(&self) -> (r: bool)
        ensures
            r == all_circle(self.meld_tiles()),
    ;

    fn all_bamboo(&self) -> (r: bool)
        ensures
            r == all_bamboo(self.meld_tiles()),
    ;

    fn all_honor(&self) -> (r: bool)
        ensures
            r == all_honor(self.meld_tiles()),
    ;

    /// Every tile of the meld is among `tiles`.
    fn consists_of(&self, tiles: &Vec<Tile>) -> (r: bool)
        ensures
            r == consists_of_seq(self.meld_tiles(), tiles@),
    ;

    /// A copy of the meld's tiles.
    fn vec(&self) -> (r: Vec<Tile>)
        ensures
            r@ == self.meld_tiles(),
    ;
}

fn seq_all_character(v: &Vec<Tile>) -> (r: bool)
    ensures
        r == all_character(v@),
{
    let mut i: usize = 0;
    while i < v.len()
        invariant
            i <= v.len(),
            forall|j: int| 0 <= j < i ==> (#[trigger] v@[j]) is Character,
        decreases v.len() - i,
    {
        if !matches!(v[i], Tile::Character(_)) {
            return false;
        }
        i += 1;
    }
    true
}

fn seq_all_circle(v: &Vec<Tile>) -> (r: bool)
    ensures
        r == all_circle(v@),
{
    let mut i: usize = 0;
    while i < v.len()
        invariant
            i <= v.len(),
            forall|j: int| 0 <= j < i ==> (#[trigger] v@[j]) is Circle,
        decreases v.len() - i,
    {
        if !matches!(v[i], Tile::Circle(_)) {
            return false;
        }
        i += 1;
    }
    true
}

fn seq_all_bamboo(v: &Vec<Tile>) -> (r: bool)
    ensures
        r == all_bamboo(v@),
{
    let mut i: usize = 0;
    while i < v.len()
        invariant
            i <= v.len(),
            forall|j: int| 0 <= j < i ==> (#[trigger] v@[j]) is Bamboo,
        decreases v.len() - i,
    {
        if !matches!(v[i], Tile::Bamboo(_)) {
            return false;
        }
        i += 1;
    }
    true
}

pub(crate) fn seq_all_honor(v: &Vec<Tile>) -> (r: bool)
    ensures
        r == all_honor(v@),
{
    let mut i: usize = 0;
    while i < v.len()
        invariant
            i <= v.len(),
            forall|j: int| 0 <= j < i ==> (#[trigger] v@[j]) is Honour,
        decreases v.len() - i,
    {
        if !matches!(v[i], Tile::Honour(_)) {
            return false;
        }
        i += 1;
    }
    true
}

/// Whether `t` occurs in `v`.
pub fn contains_tile(v: &Vec<Tile>, t: Tile) -> (r: bool)
    ensures
        r == v@.contains(t),
{
    let mut i: usize = 0;
    while i < v.len()
        invariant
            i <= v.len(),
            forall|j: int| 0 <= j < i ==> v@[j] != t,
        decreases v.len() - i,
    {
        if v[i] == t {
            return true;
        }
        i += 1;
    }
    false
}

fn seq_consists_of(v: &Vec<Tile>, tiles: &Vec<Tile>) -> (r: bool)
    ensures
        r == consists_of_seq(v@, tiles@),
{
    let mut i: usize = 0;
    while i < v.len()
        invariant
            i <= v.len(),
            forall|j: int| 0 <= j < i ==> tiles@.contains(#[trigger] v@[j]),
        decreases v.len() - i,
    {
        if !contains_tile(tiles, v[i]) {
            return false;
        }
        i += 1;
    }
    true
}

impl Meld {
    /// The concealed meld that `vec` forms: a run of three, a pair or a
    /// triplet.
    pub fn new(vec: Vec<Tile>) -> (r: Result<Meld, HandError>)
        ensures
            r is Ok <==> meld_kind_of(vec@) is Some,
            r matches Ok(s) ==> s@ == (meld_kind_of(vec@)->0, vec@),
            r matches Err(e) ==> e == HandError::InvalidMeld,
    {
        if vec.len() == 3 && vec.is_sequential() {
            Ok(Meld::Chow(vec))
        } else if vec.len() == 2 && vec.is_flat() {
            Ok(Meld::Pair(vec))
        } else if vec.len() == 3 && vec.is_flat() {
            Ok(Meld::Pung(vec))
        } else {
            Err(HandError::InvalidMeld)
        }
    }

    pub fn tiles(&self) -> (r: &Vec<Tile>)
        ensures
            r@ == self@.1,
    {
        match self {
            Meld::Chow(v) => v,
            Meld::Pung(v) => v,
            Meld::Pair(v) => v,
            Meld::Body(v) => v,
        }
    }

    pub fn kind(&self) -> (r: MeldKind)
        ensures
            r == self@.0,
    {
        match self {
            Meld::Chow(_) => MeldKind::Chow,
            Meld::Pung(_) => MeldKind::Pung,
            Meld::Pair(_) => MeldKind::Pair,
            Meld::Body(_) => MeldKind::Body,
        }
    }

    /// A meld of the given shape holding `tiles`.
    pub fn from_parts(kind: MeldKind, tiles: Vec<Tile>) -> (r: Meld)
        ensures
            r@ == (kind, tiles@),
    {
        match kind {
            MeldKind::Chow => Meld::Chow(tiles),
            MeldKind::Pung => Meld::Pung(tiles),
            MeldKind::Pair => Meld::Pair(tiles),
            MeldKind::Body => Meld::Body(tiles),
        }
    }

    /// An equal meld.
    pub fn duplicate(&self) -> (r: Meld)
        ensures
            r@ == self@,
    {
        Meld::from_parts(self.kind(), copy_tiles(self.tiles()))
    }
}

impl OpenSet {
    pub fn tiles(&self) -> (r: &Vec<Tile>)
        ensures
            r@ == self@.1,
    {
        match self {
            OpenSet::Pung(v) => v,
            OpenSet::Chow(v) => v,
            OpenSet::Kong(v) => v,
            OpenSet::ConcealedKong(v) => v,
        }
    }

    pub fn kind(&self) -> (r: OpenKind)
        ensures
            r == self@.0,
    {
        match self {
            OpenSet::Pung(_) => OpenKind::Pung,
            OpenSet::Chow(_) => OpenKind::Chow,
            OpenSet::Kong(_) => OpenKind::Kong,
            OpenSet::ConcealedKong(_) => OpenKind::ConcealedKong,
        }
    }

    /// A declared meld of the given shape holding `tiles`.
    pub fn from_parts(kind: OpenKind, tiles: Vec<Tile>) -> (r: OpenSet)
        ensures
            r@ == (kind, tiles@),
    {
        match kind {
            OpenKind::Pung => OpenSet::Pung(tiles),
            OpenKind::Chow => OpenSet::Chow(tiles),
            OpenKind::Kong => OpenSet::Kong(tiles),
            OpenKind::ConcealedKong => OpenSet::ConcealedKong(tiles),
        }
    }

    /// An equal meld.
    pub fn duplicate(&self) -> (r: OpenSet)
        ensures
            r@ == self@,
    {
        OpenSet::from_parts(self.kind(), copy_tiles(self.tiles()))
    }
}

impl Sets for Meld {
    open spec fn meld_tiles(&self) -> Seq<Tile> {
        self@.1
    }

    open spec fn meld_fu(&self) -> int {
        set_fu(self@)
    }

    fn fu(&self) -> (r: Fu) {
        match self {
            Meld::Pung(v) => Fu(if v.all_yaotyu() { 8 } else { 4 }),
            _ => Fu(0),
        }
    }

    fn all_character(&self) -> (r: bool) {
        seq_all_character(self.tiles())
    }

    fn all_circle(&self) -> (r: bool) {
        seq_all_circle(self.tiles())
    }

    fn all_bamboo(&self) -> (r: bool) {
        seq_all_bamboo(self.tiles())
    }

    fn all_honor(&self) -> (r: bool) {
        seq_all_honor(self.tiles())
    }

    fn consists_of(&self, tiles: &Vec<Tile>) -> (r: bool) {
        seq_consists_of(self.tiles(), tiles)
    }

    fn vec(&self) -> (r: Vec<Tile>) {
        copy_tiles(self.tiles())
    }
}

impl Sets for OpenSet {
    open spec fn meld_tiles(&self) -> Seq<Tile> {
        self@.1
    }

    open spec fn meld_fu(&self) -> int {
        open_set_fu(self@)
    }

    fn fu(&self) -> (r: Fu) {
        match self {
            OpenSet::Pung(v) => Fu(if v.all_yaotyu() { 4 } else { 2 }),
            OpenSet::ConcealedKong(v) => Fu(if v.all_yaotyu() { 32 } else { 16 }),
            OpenSet::Kong(v) => Fu(if v.all_yaotyu() { 16 } else { 8 }),
            OpenSet::Chow(_) => Fu(0),
        }
    }

    fn all_character(&self) -> (r: bool) {
        seq_all_character(self.tiles())
    }

    fn all_circle(&self) -> (r: bool) {
        seq_all_circle(self.tiles())
    }

    fn all_bamboo(&self) -> (r: bool) {
        seq_all_bamboo(self.tiles())
    }

    fn all_honor(&self) -> (r: bool) {
        seq_all_honor(self.tiles())
    }

    fn consists_of(&self, tiles: &Vec<Tile>) -> (r: bool) {
        seq_consists_of(self.tiles(), tiles)
    }

    fn vec(&self) -> (r: Vec<Tile>) {
        copy_tiles(self.tiles())
    }
}

impl Tiles for Meld {
    open spec fn tile_seq(&self) -> Seq<Tile> {
        self@.1
    }

    open spec fn sum_seq(&self) -> Seq<Tile> {
        self@.1
    }

    fn contains_yaotyu(&self) -> (r: bool) {
        self.tiles().contains_yaotyu()
    }

    fn all_yaotyu(&self) -> (r: bool) {
        self.tiles().all_yaotyu()
    }

    fn contains_terminal(&self) -> (r: bool) {
        self.tiles().contains_terminal()
    }

    fn all_terminal(&self) -> (r: bool) {
        self.tiles().all_terminal()
    }

    fn is_sequential(&self) -> (r: bool) {
        self.tiles().is_sequential()
    }

    fn is_flat(&self) -> (r: bool) {
        self.tiles().is_flat()
    }

    fn count(&self, tile: &Tile) -> (r: u8) {
        self.tiles().count(tile)
    }

    fn sum_tile(&self) -> (r: Option<Tile>) {
        self.tiles().sum_tile()
    }
}

/// The tiles of a declared meld that its sum counts: a quad counts as the
/// triplet it extends.
pub open spec fn open_sum_seq(m: (OpenKind, Seq<Tile>)) -> Seq<Tile> {
    if (m.0 == OpenKind::Kong || m.0 == OpenKind::ConcealedKong) && m.1.len() > 0 {
        m.1.drop_first()
    } else {
        m.1
    }
}

impl Tiles for OpenSet {
    open spec fn tile_seq(&self) -> Seq<Tile> {
        self@.1
    }

    open spec fn sum_seq(&self) -> Seq<Tile> {
        open_sum_seq(self@)
    }

    fn contains_yaotyu(&self) -> (r: bool) {
        self.tiles().contains_yaotyu()
    }

    fn all_yaotyu(&self) -> (r: bool) {
        self.tiles().all_yaotyu()
    }

    fn contains_terminal(&self) -> (r: bool) {
        self.tiles().contains_terminal()
    }

    fn all_terminal(&self) -> (r: bool) {
        self.tiles().all_terminal()
    }

    fn is_sequential(&self) -> (r: bool) {
        self.tiles().is_sequential()
    }

    fn is_flat(&self) -> (r: bool) {
        self.tiles().is_flat()
    }

    fn count(&self, tile: &Tile) -> (r: u8) {
        self.tiles().count(tile)
    }

    fn sum_tile(&self) -> (r: Option<Tile>) {
        let mut v = copy_tiles(self.tiles());
        match self {
            OpenSet::Kong(_) | OpenSet::ConcealedKong(_) => {
                if v.len() > 0 {
                    v.remove(0);
                }
            },
            _ => {},
        }
        proof {
            assert(v@ =~= open_sum_seq(self@));
        }
        v.sum_tile()
    }
}

/// A hand: concealed tiles in canonical order, declared melds and the
/// winning tile.
#[derive(Clone, Debug)]
pub struct Hand {
    pub tiles: Vec<Tile>,
    pub open_sets: Vec<OpenSet>,
    pub winning: Tile,
}

impl Hand {
    pub fn tiles(&self) -> (r: &Vec<Tile>)
        ensures
            r@ == self.tiles@,
    {
        &self.tiles
    }
}

} // verus!
