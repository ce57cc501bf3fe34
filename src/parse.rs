//! The decomposer: every way to read the concealed tiles as a pair plus
//! triplets and runs, and the two irregular shapes.
use vstd::prelude::*;
use vstd::multiset::Multiset;
use crate::tiles::{Tile, next_tile, is_yaotyu_tile, tile_wf};
use crate::groups::{
    Hand, Meld, OpenSet, MeldKind, OpenKind, Tiles, Sets, count_tile, copy_tiles, all_yaotyu, contains_tile,
    meld_kind_of, is_flat_seq, is_sequential_seq, tiles_wf, canonical, sorted_tiles,
    lemma_canonical_props,
};

verus! {

pub type MeldView = (MeldKind, Seq<Tile>);

pub type OpenView = (OpenKind, Seq<Tile>);

/// What a node holds, as values.
pub struct NodeView {
    pub remaining: Seq<Tile>,
    pub open_sets: Seq<OpenView>,
    pub sets: Seq<MeldView>,
}

pub open spec fn melds_view(v: Seq<Meld>) -> Seq<MeldView> {
    v.map_values(|m: Meld| m@)
}

pub open spec fn opens_view(v: Seq<OpenSet>) -> Seq<OpenView> {
    v.map_values(|m: OpenSet| m@)
}

/// One reading of a hand: the concealed melds found so far (the pair first),
/// the declared melds, and the tiles not yet placed (none in a finished
/// reading).
#[derive(Clone, Debug, PartialEq)]
pub struct Node {
    pub remaining: Vec<Tile>,
    pub open_sets: Vec<OpenSet>,
    pub sets: Vec<Meld>,
}

impl View for Node {
    type V = NodeView;

    open spec fn view(&self) -> NodeView {
        NodeView {
            remaining: self.remaining@,
            open_sets: opens_view(self.open_sets@),
            sets: melds_view(self.sets@),
        }
    }
}

pub open spec fn nodes_view(v: Seq<Node>) -> Seq<NodeView> {
    v.map_values(|n: Node| n@)
}

/// `s` without the first occurrence of `t`.
pub open spec fn remove_first(s: Seq<Tile>, t: Tile) -> Seq<Tile>
    decreases s.len(),
{
    if s.len() == 0 {
        s
    } else if s[0] == t {
        s.drop_first()
    } else {
        seq![s[0]] + remove_first(s.drop_first(), t)
    }
}

pub proof fn lemma_remove_first_len(s: Seq<Tile>, t: Tile)
    ensures
        remove_first(s, t).len() <= s.len(),
        s.contains(t) ==> remove_first(s, t).len() == s.len() - 1,
        forall|u: Tile| u != t && s.contains(u) ==> #[trigger] remove_first(s, t).contains(u),
    decreases s.len(),
{
    if s.len() > 0 {
        lemma_remove_first_len(s.drop_first(), t);
        if s[0] != t {
            let r = remove_first(s, t);
            assert(r == seq![s[0]] + remove_first(s.drop_first(), t));
            if s.contains(t) {
                let k = choose|k: int| 0 <= k < s.len() && s[k] == t;
                assert(s.drop_first()[k - 1] == t);
            }
            assert forall|u: Tile| u != t && s.contains(u) implies #[trigger] r.contains(u) by {
                let k = choose|k: int| 0 <= k < s.len() && s[k] == u;
                if k == 0 {
                    assert(r[0] == u);
                } else {
                    assert(s.drop_first()[k - 1] == u);
                    assert(s.drop_first().contains(u));
                    assert(remove_first(s.drop_first(), t).contains(u));
                    let m = choose|m: int|
                        0 <= m < remove_first(s.drop_first(), t).len() && remove_first(
                            s.drop_first(),
                            t,
                        )[m] == u;
                    assert(r[m + 1] == u);
                }
            }
        } else {
            assert forall|u: Tile| u != t && s.contains(u) implies #[trigger] remove_first(
                s,
                t,
            ).contains(u) by {
                let k = choose|k: int| 0 <= k < s.len() && s[k] == u;
                assert(s.drop_first()[k - 1] == u);
            }
        }
    }
}

proof fn lemma_count_cons(a: Tile, s: Seq<Tile>, t: Tile)
    ensures
        count_tile(seq![a] + s, t) == count_tile(s, t) + if a == t { 1nat } else { 0nat },
    decreases s.len(),
{
    if s.len() > 0 {
        lemma_count_cons(a, s.drop_last(), t);
        assert((seq![a] + s).drop_last() == seq![a] + s.drop_last());
        assert((seq![a] + s).last() == s.last());
        assert(count_tile(s, t) == count_tile(s.drop_last(), t) + if s.last() == t {
            1nat
        } else {
            0nat
        });
        assert(count_tile(seq![a] + s, t) == count_tile((seq![a] + s).drop_last(), t) + if (seq![a]
            + s).last() == t {
            1nat
        } else {
            0nat
        });
    } else {
        assert(seq![a] + s == seq![a]);
        assert(seq![a].drop_last() == Seq::<Tile>::empty());
        assert(count_tile(Seq::<Tile>::empty(), t) == 0);
        assert(count_tile(seq![a], t) == count_tile(seq![a].drop_last(), t) + if seq![a].last() == t {
            1nat
        } else {
            0nat
        });
    }
}

proof fn lemma_count_contains(s: Seq<Tile>, t: Tile)
    ensures
        count_tile(s, t) > 0 <==> s.contains(t),
    decreases s.len(),
{
    if s.len() > 0 {
        lemma_count_contains(s.drop_last(), t);
        if s.drop_last().contains(t) {
            let k = choose|k: int| 0 <= k < s.drop_last().len() && s.drop_last()[k] == t;
            assert(s[k] == t);
        }
        if s.contains(t) && s.last() != t {
            let k = choose|k: int| 0 <= k < s.len() && s[k] == t;
            assert(s.drop_last()[k] == t);
        }
    }
}

proof fn lemma_count_remove_first(s: Seq<Tile>, t: Tile)
    requires
        s.contains(t),
    ensures
        count_tile(remove_first(s, t), t) + 1 == count_tile(s, t),
    decreases s.len(),
{
    assert(s == seq![s[0]] + s.drop_first());
    lemma_count_cons(s[0], s.drop_first(), t);
    if s[0] != t {
        let k = choose|k: int| 0 <= k < s.len() && s[k] == t;
        assert(s.drop_first()[k - 1] == t);
        lemma_count_remove_first(s.drop_first(), t);
        lemma_count_cons(s[0], remove_first(s.drop_first(), t), t);
    }
}

/// The three tiles of a run starting at `first`, if there is one.
pub open spec fn run_from(first: Tile) -> Option<(Tile, Tile)> {
    match next_tile(first) {
        Some(second) => match next_tile(second) {
            Some(third) => Some((second, third)),
            None => None,
        },
        None => None,
    }
}

/// Every finished reading reachable from `remaining` tiles still to place,
/// `sets` found so far and the declared melds `open`: the lowest tile is
/// taken first as a triplet, then as the start of a run; readings through the
/// triplet come first.
pub open spec fn leaves(remaining: Seq<Tile>, sets: Seq<MeldView>, open: Seq<OpenView>) -> Seq<
    NodeView,
>
    decreases remaining.len(),
{
    if remaining.len() == 0 {
        seq![NodeView { remaining, open_sets: open, sets }]
    } else {
        let first = remaining[0];
        let pong = if count_tile(remaining, first) >= 3 {
            let r1 = remaining.drop_first();
            let r2 = remove_first(r1, first);
            let r3 = remove_first(r2, first);
            proof {
                lemma_remove_first_len(r1, first);
                lemma_remove_first_len(r2, first);
            }
            leaves(r3, sets.push((MeldKind::Pung, seq![first, first, first])), open)
        } else {
            Seq::empty()
        };
        let chow = match run_from(first) {
            Some((second, third)) => if remaining.contains(second) && remaining.contains(third) {
                let r1 = remaining.drop_first();
                let r2 = remove_first(r1, second);
                let r3 = remove_first(r2, third);
                proof {
                    lemma_remove_first_len(r1, second);
                    lemma_remove_first_len(r2, third);
                }
                leaves(r3, sets.push((MeldKind::Chow, seq![first, second, third])), open)
            } else {
                Seq::empty()
            },
            None => Seq::empty(),
        };
        pong + chow
    }
}

/// Total number of tiles in `sets`.
pub open spec fn meld_tile_total(sets: Seq<MeldView>) -> int
    decreases sets.len(),
{
    if sets.len() == 0 {
        0
    } else {
        meld_tile_total(sets.drop_last()) + sets.last().1.len()
    }
}

/// A concealed meld of a real shape: a run, a triplet or a pair.
pub open spec fn meld_valid(m: MeldView) -> bool {
    meld_kind_of(m.1) == Some(m.0)
}

/// The tiles of `sets`, meld after meld.
pub open spec fn meld_tiles_flat(sets: Seq<MeldView>) -> Seq<Tile>
    decreases sets.len(),
{
    if sets.len() == 0 {
        Seq::empty()
    } else {
        meld_tiles_flat(sets.drop_last()) + sets.last().1
    }
}

proof fn lemma_singleton_multiset(t: Tile)
    ensures
        seq![t].to_multiset() == Multiset::<Tile>::empty().insert(t),
{
    broadcast use vstd::seq_lib::group_to_multiset_ensures;

    assert(seq![t] == Seq::<Tile>::empty().push(t));
}

proof fn lemma_remove_first_multiset(s: Seq<Tile>, t: Tile)
    requires
        s.contains(t),
    ensures
        remove_first(s, t).to_multiset().insert(t) == s.to_multiset(),
    decreases s.len(),
{
    broadcast use vstd::seq_lib::group_to_multiset_ensures;

    let d = s.drop_first();
    assert(s == seq![s[0]] + d);
    vstd::seq_lib::lemma_multiset_commutative(seq![s[0]], d);
    lemma_singleton_multiset(s[0]);
    if s[0] != t {
        let k = choose|k: int| 0 <= k < s.len() && s[k] == t;
        assert(d[k - 1] == t);
        lemma_remove_first_multiset(d, t);
        vstd::seq_lib::lemma_multiset_commutative(seq![s[0]], remove_first(d, t));
        assert(remove_first(s, t).to_multiset().insert(t) =~= s.to_multiset());
    } else {
        assert(remove_first(s, t) == d);
        assert(d.to_multiset().insert(t) =~= s.to_multiset());
    }
}

/// A finished reading that extends `sets` with valid melds and places every
/// remaining tile.
pub open spec fn leaf_extends(v: NodeView, remaining: Seq<Tile>, sets: Seq<MeldView>, open: Seq<OpenView>) -> bool {
    &&& v.remaining.len() == 0
    &&& v.open_sets == open
    &&& v.sets.len() >= sets.len()
    &&& v.sets.subrange(0, sets.len() as int) == sets
    &&& forall|j: int| sets.len() <= j < v.sets.len() ==> meld_valid(#[trigger] v.sets[j])
    &&& meld_tile_total(v.sets) == meld_tile_total(sets) + remaining.len()
    &&& meld_tiles_flat(v.sets).to_multiset() == meld_tiles_flat(sets).to_multiset().add(remaining.to_multiset())
}

proof fn lemma_total_push(sets: Seq<MeldView>, m: MeldView)
    ensures
        meld_tile_total(sets.push(m)) == meld_tile_total(sets) + m.1.len(),
{
    assert(sets.push(m).drop_last() == sets);
}

pub proof fn lemma_leaves_extend(remaining: Seq<Tile>, sets: Seq<MeldView>, open: Seq<OpenView>)
    requires
        tiles_wf(remaining),
    ensures
        forall|i: int|
            0 <= i < leaves(remaining, sets, open).len() ==> leaf_extends(
                #[trigger] leaves(remaining, sets, open)[i],
                remaining,
                sets,
                open,
            ),
    decreases remaining.len(), 1int,
{
    if remaining.len() == 0 {
        assert(sets.subrange(0, sets.len() as int) == sets);
        broadcast use vstd::seq_lib::group_to_multiset_ensures;

        assert(meld_tiles_flat(sets).to_multiset().add(remaining.to_multiset()) =~= meld_tiles_flat(
            sets,
        ).to_multiset());
    } else {
        let first = remaining[0];
        let pong = if count_tile(remaining, first) >= 3 {
            lemma_pong_branch(remaining, sets, open);
            let r3 = remove_first(remove_first(remaining.drop_first(), first), first);
            leaves(r3, sets.push((MeldKind::Pung, seq![first, first, first])), open)
        } else {
            Seq::empty()
        };
        let chow = match run_from(first) {
            Some((second, third)) => if remaining.contains(second) && remaining.contains(third) {
                lemma_chow_branch(remaining, sets, open, second, third);
                let r3 = remove_first(remove_first(remaining.drop_first(), second), third);
                leaves(r3, sets.push((MeldKind::Chow, seq![first, second, third])), open)
            } else {
                Seq::empty()
            },
            None => Seq::empty(),
        };
        assert(leaves(remaining, sets, open) == pong + chow);
        assert forall|i: int|
            0 <= i < leaves(remaining, sets, open).len() implies leaf_extends(
                #[trigger] leaves(remaining, sets, open)[i],
                remaining,
                sets,
                open,
            ) by {
            if i < pong.len() {
                assert(leaves(remaining, sets, open)[i] == pong[i]);
            } else {
                assert(leaves(remaining, sets, open)[i] == chow[i - pong.len()]);
            }
        }
    }
}

proof fn lemma_pong_branch(remaining: Seq<Tile>, sets: Seq<MeldView>, open: Seq<OpenView>)
    requires
        tiles_wf(remaining),
        remaining.len() > 0,
        count_tile(remaining, remaining[0]) >= 3,
    ensures
        ({
            let first = remaining[0];
            let r3 = remove_first(remove_first(remaining.drop_first(), first), first);
            let l = leaves(r3, sets.push((MeldKind::Pung, seq![first, first, first])), open);
            forall|i: int| 0 <= i < l.len() ==> leaf_extends(#[trigger] l[i], remaining, sets, open)
        }),
    decreases remaining.len(), 0int,
{
    let first = remaining[0];
    let r1 = remaining.drop_first();
    let r2 = remove_first(r1, first);
    let r3 = remove_first(r2, first);
    lemma_count_cons(first, r1, first);
    assert(remaining == seq![first] + r1);
    lemma_count_contains(r1, first);
    lemma_remove_first_len(r1, first);
    lemma_count_remove_first(r1, first);
    lemma_count_contains(r2, first);
    lemma_remove_first_len(r2, first);
    assert(tiles_wf(r1)) by {
        assert forall|i: int| 0 <= i < r1.len() implies tile_wf(#[trigger] r1[i]) by {
            assert(r1[i] == remaining[i + 1]);
        }
    }
    lemma_remove_first_subset(r1, first);
    lemma_remove_first_subset(r2, first);
    let m = (MeldKind::Pung, seq![first, first, first]);
    let s2 = sets.push(m);
    lemma_leaves_extend(r3, s2, open);
    assert(meld_valid(m));
    lemma_remove_first_multiset(r2, first);
    lemma_remove_first_multiset(r1, first);
    lemma_three_multiset(remaining, r1, r2, r3, first, first, first);
    let l = leaves(r3, s2, open);
    assert forall|i: int| 0 <= i < l.len() implies leaf_extends(#[trigger] l[i], remaining, sets, open) by {
        lemma_leaf_step(l[i], r3, s2, sets, m, remaining, open);
    }
}

proof fn lemma_chow_branch(
    remaining: Seq<Tile>,
    sets: Seq<MeldView>,
    open: Seq<OpenView>,
    second: Tile,
    third: Tile,
)
    requires
        tiles_wf(remaining),
        remaining.len() > 0,
        run_from(remaining[0]) == Some((second, third)),
        remaining.contains(second),
        remaining.contains(third),
    ensures
        ({
            let first = remaining[0];
            let r3 = remove_first(remove_first(remaining.drop_first(), second), third);
            let l = leaves(r3, sets.push((MeldKind::Chow, seq![first, second, third])), open);
            forall|i: int| 0 <= i < l.len() ==> leaf_extends(#[trigger] l[i], remaining, sets, open)
        }),
    decreases remaining.len(), 0int,
{
    let first = remaining[0];
    let r1 = remaining.drop_first();
    let r2 = remove_first(r1, second);
    let r3 = remove_first(r2, third);
    assert(tile_wf(first));
    assert(second != first && third != first && third != second);
    let k2 = choose|k: int| 0 <= k < remaining.len() && remaining[k] == second;
    assert(r1[k2 - 1] == second);
    let k3 = choose|k: int| 0 <= k < remaining.len() && remaining[k] == third;
    assert(r1[k3 - 1] == third);
    lemma_remove_first_len(r1, second);
    assert(r2.contains(third));
    lemma_remove_first_len(r2, third);
    assert(tiles_wf(r1)) by {
        assert forall|i: int| 0 <= i < r1.len() implies tile_wf(#[trigger] r1[i]) by {
            assert(r1[i] == remaining[i + 1]);
        }
    }
    lemma_remove_first_subset(r1, second);
    lemma_remove_first_subset(r2, third);
    let m = (MeldKind::Chow, seq![first, second, third]);
    let s2 = sets.push(m);
    lemma_leaves_extend(r3, s2, open);
    lemma_remove_first_multiset(r2, third);
    lemma_remove_first_multiset(r1, second);
    lemma_three_multiset(remaining, r1, r2, r3, first, second, third);
    assert(is_sequential_seq(m.1));
    assert(meld_valid(m));
    let l = leaves(r3, s2, open);
    assert forall|i: int| 0 <= i < l.len() implies leaf_extends(#[trigger] l[i], remaining, sets, open) by {
        lemma_leaf_step(l[i], r3, s2, sets, m, remaining, open);
    }
}

proof fn lemma_three_multiset(
    remaining: Seq<Tile>,
    r1: Seq<Tile>,
    r2: Seq<Tile>,
    r3: Seq<Tile>,
    a: Tile,
    b: Tile,
    c: Tile,
)
    requires
        remaining.len() > 0,
        remaining[0] == a,
        r1 == remaining.drop_first(),
        r2.to_multiset().insert(b) == r1.to_multiset(),
        r3.to_multiset().insert(c) == r2.to_multiset(),
    ensures
        seq![a, b, c].to_multiset().add(r3.to_multiset()) == remaining.to_multiset(),
{
    broadcast use vstd::seq_lib::group_to_multiset_ensures;

    assert(remaining == seq![a] + r1);
    vstd::seq_lib::lemma_multiset_commutative(seq![a], r1);
    lemma_singleton_multiset(a);
    assert(seq![a, b, c] == Seq::<Tile>::empty().push(a).push(b).push(c));
    assert(seq![a, b, c].to_multiset().add(r3.to_multiset()) =~= remaining.to_multiset());
}

proof fn lemma_leaf_step(
    v: NodeView,
    r3: Seq<Tile>,
    s2: Seq<MeldView>,
    sets: Seq<MeldView>,
    m: MeldView,
    remaining: Seq<Tile>,
    open: Seq<OpenView>,
)
    requires
        leaf_extends(v, r3, s2, open),
        s2 == sets.push(m),
        meld_valid(m),
        m.1.len() == 3,
        r3.len() + 3 == remaining.len(),
        m.1.to_multiset().add(r3.to_multiset()) == remaining.to_multiset(),
    ensures
        leaf_extends(v, remaining, sets, open),
{
    broadcast use vstd::seq_lib::group_to_multiset_ensures;

    assert(meld_tiles_flat(s2) == meld_tiles_flat(sets) + m.1) by {
        assert(s2.drop_last() == sets);
    }
    vstd::seq_lib::lemma_multiset_commutative(meld_tiles_flat(sets), m.1);
    assert(meld_tiles_flat(v.sets).to_multiset() =~= meld_tiles_flat(sets).to_multiset().add(
        remaining.to_multiset(),
    ));
    lemma_total_push(sets, m);
    assert(v.sets.subrange(0, sets.len() as int) == v.sets.subrange(0, s2.len() as int).subrange(
        0,
        sets.len() as int,
    ));
    assert(v.sets[sets.len() as int] == v.sets.subrange(0, s2.len() as int)[sets.len() as int]);
    assert(s2[sets.len() as int] == m);
    assert(s2.subrange(0, sets.len() as int) =~= sets);
    assert forall|j: int| sets.len() <= j < v.sets.len() implies meld_valid(#[trigger] v.sets[j]) by {
        if j == sets.len() {
            assert(v.sets[j] == m);
        } else {
            assert(s2.len() <= j);
        }
    }
}

/// Removing a tile keeps the rest well formed.
pub proof fn lemma_remove_first_subset(s: Seq<Tile>, t: Tile)
    ensures
        tiles_wf(s) ==> tiles_wf(remove_first(s, t)),
        forall|i: int| 0 <= i < remove_first(s, t).len() ==> s.contains(#[trigger] remove_first(s, t)[i]),
    decreases s.len(),
{
    if s.len() > 0 {
        lemma_remove_first_subset(s.drop_first(), t);
        let r = remove_first(s, t);
        assert forall|i: int| 0 <= i < r.len() implies s.contains(#[trigger] r[i]) by {
            if s[0] == t {
                assert(r[i] == s[i + 1]);
            } else if i == 0 {
                assert(r[0] == s[0]);
            } else {
                let x = r[i];
                assert(x == remove_first(s.drop_first(), t)[i - 1]);
                assert(s.drop_first().contains(x));
                let k = choose|k: int| 0 <= k < s.drop_first().len() && s.drop_first()[k] == x;
                assert(s[k + 1] == x);
            }
        }
        if tiles_wf(s) {
            assert forall|i: int| 0 <= i < r.len() implies tile_wf(#[trigger] r[i]) by {
                assert(s.contains(r[i]));
                let k = choose|k: int| 0 <= k < s.len() && s[k] == r[i];
            }
        }
    }
}

} // verus!

verus! {

proof fn lemma_remove_first_at(s: Seq<Tile>, t: Tile, k: int)
    requires
        0 <= k < s.len(),
        s[k] == t,
        forall|j: int| 0 <= j < k ==> s[j] != t,
    ensures
        remove_first(s, t) == s.remove(k),
    decreases s.len(),
{
    if k == 0 {
        assert(s.drop_first() =~= s.remove(0));
    } else {
        assert forall|j: int| 0 <= j < k - 1 implies s.drop_first()[j] != t by {
            assert(s.drop_first()[j] == s[j + 1]);
        }
        lemma_remove_first_at(s.drop_first(), t, k - 1);
        assert(seq![s[0]] + s.drop_first().remove(k - 1) =~= s.remove(k));
    }
}

proof fn lemma_remove_first_absent(s: Seq<Tile>, t: Tile)
    requires
        !s.contains(t),
    ensures
        remove_first(s, t) == s,
    decreases s.len(),
{
    if s.len() > 0 {
        assert(s[0] != t);
        assert(!s.drop_first().contains(t)) by {
            if s.drop_first().contains(t) {
                let k = choose|k: int| 0 <= k < s.drop_first().len() && s.drop_first()[k] == t;
                assert(s[k + 1] == t);
            }
        }
        lemma_remove_first_absent(s.drop_first(), t);
        assert(seq![s[0]] + s.drop_first() =~= s);
    }
}

/// Takes the first occurrence of `t` out of `v`.
fn remove_tile(v: &mut Vec<Tile>, t: Tile)
    ensures
        final(v)@ == remove_first(old(v)@, t),
{
    let mut k: usize = 0;
    while k < v.len()
        invariant
            k <= v.len(),
            v@ == old(v)@,
            forall|j: int| 0 <= j < k ==> v@[j] != t,
        decreases v.len() - k,
    {
        if v[k] == t {
            proof {
                lemma_remove_first_at(v@, t, k as int);
            }
            v.remove(k);
            return;
        }
        k += 1;
    }
    proof {
        lemma_remove_first_absent(v@, t);
    }
}

fn copy_melds(v: &Vec<Meld>) -> (r: Vec<Meld>)
    ensures
        melds_view(r@) == melds_view(v@),
{
    let mut r: Vec<Meld> = Vec::new();
    let mut i: usize = 0;
    while i < v.len()
        invariant
            i <= v.len(),
            r.len() == i,
            forall|j: int| 0 <= j < i ==> (#[trigger] r@[j])@ == v@[j]@,
        decreases v.len() - i,
    {
        let m = v[i].duplicate();
        r.push(m);
        i += 1;
    }
    assert(melds_view(r@) =~= melds_view(v@));
    r
}

fn copy_opens(v: &Vec<OpenSet>) -> (r: Vec<OpenSet>)
    ensures
        opens_view(r@) == opens_view(v@),
{
    let mut r: Vec<OpenSet> = Vec::new();
    let mut i: usize = 0;
    while i < v.len()
        invariant
            i <= v.len(),
            r.len() == i,
            forall|j: int| 0 <= j < i ==> (#[trigger] r@[j])@ == v@[j]@,
        decreases v.len() - i,
    {
        let m = v[i].duplicate();
        r.push(m);
        i += 1;
    }
    assert(opens_view(r@) =~= opens_view(v@));
    r
}

fn push_node(out: &mut Vec<Node>, n: Node)
    ensures
        nodes_view(final(out)@) == nodes_view(old(out)@).push(n@),
{
    out.push(n);
    assert(nodes_view(out@) =~= nodes_view(old(out)@).push(n@));
}

/// Appends to `out` every finished reading of `remaining` after `sets`.
fn search(remaining: Vec<Tile>, sets: Vec<Meld>, open: &Vec<OpenSet>, out: &mut Vec<Node>)
    requires
        remaining@.len() <= 255,
    ensures
        nodes_view(final(out)@) == nodes_view(old(out)@) + leaves(
            remaining@,
            melds_view(sets@),
            opens_view(open@),
        ),
    decreases remaining@.len(),
{
    let ghost sv = melds_view(sets@);
    let ghost ov = opens_view(open@);
    if remaining.len() == 0 {
        let n = Node { remaining, open_sets: copy_opens(open), sets };
        push_node(out, n);
        assert(nodes_view(out@) =~= nodes_view(old(out)@) + leaves(remaining@, sv, ov));
        return;
    }
    let first = remaining[0];
    let ghost out0 = nodes_view(out@);
    let ghost pong: Seq<NodeView> = Seq::empty();
    if remaining.count(&first) >= 3 {
        let mut tiles = copy_tiles(&remaining);
        tiles.remove(0);
        assert(tiles@ == remaining@.drop_first());
        proof {
            lemma_remove_first_len(tiles@, first);
        }
        remove_tile(&mut tiles, first);
        proof {
            lemma_remove_first_len(tiles@, first);
        }
        remove_tile(&mut tiles, first);
        let mut s2 = copy_melds(&sets);
        let m = Meld::Pung(vec![first, first, first]);
        proof {
            assert(melds_view(s2@.push(m)) =~= sv.push((MeldKind::Pung, seq![first, first, first])));
        }
        s2.push(m);
        proof {
            pong = leaves(tiles@, melds_view(s2@), ov);
        }
        search(tiles, s2, open, out);
    }
    assert(nodes_view(out@) == out0 + pong);
    let ghost out1 = nodes_view(out@);
    let ghost chow: Seq<NodeView> = Seq::empty();
    match first.next() {
        Some(second) => match second.next() {
            Some(third) => {
                if contains_tile(&remaining, second) && contains_tile(&remaining, third) {
                    let mut tiles = copy_tiles(&remaining);
                    tiles.remove(0);
                    assert(tiles@ == remaining@.drop_first());
                    proof {
                        lemma_remove_first_len(tiles@, second);
                    }
                    remove_tile(&mut tiles, second);
                    proof {
                        lemma_remove_first_len(tiles@, third);
                    }
                    remove_tile(&mut tiles, third);
                    let mut s2 = copy_melds(&sets);
                    let m = Meld::Chow(vec![first, second, third]);
                    proof {
                        assert(melds_view(s2@.push(m)) =~= sv.push(
                            (MeldKind::Chow, seq![first, second, third]),
                        ));
                    }
                    s2.push(m);
                    proof {
                        chow = leaves(tiles@, melds_view(s2@), ov);
                    }
                    search(tiles, s2, open, out);
                }
            },
            None => {},
        },
        None => {},
    }
    assert(nodes_view(out@) == out1 + chow);
    assert(leaves(remaining@, sv, ov) == pong + chow);
    assert(nodes_view(out@) =~= nodes_view(old(out)@) + leaves(remaining@, sv, ov));
}

impl Node {
    /// Every finished reading that this node leads to.
    pub fn search_leafs(&self) -> (r: Vec<Node>)
        requires
            self.remaining@.len() <= 255,
        ensures
            nodes_view(r@) == leaves(self@.remaining, self@.sets, self@.open_sets),
    {
        let mut out: Vec<Node> = Vec::new();
        search(copy_tiles(&self.remaining), copy_melds(&self.sets), &self.open_sets, &mut out);
        assert(nodes_view(out@) =~= Seq::<NodeView>::empty() + leaves(
            self@.remaining,
            self@.sets,
            self@.open_sets,
        ));
        out
    }
}

} // verus!

verus! {

/// The tiles of `tiles[..n]` that can be the pair: each distinct tile that
/// occurs at least twice in `tiles`, at its first occurrence.
pub open spec fn pair_heads(tiles: Seq<Tile>, n: int) -> Seq<Tile>
    decreases n,
{
    if n <= 0 || n > tiles.len() {
        Seq::empty()
    } else {
        let t = tiles[n - 1];
        pair_heads(tiles, n - 1) + if count_tile(tiles, t) >= 2 && !tiles.subrange(
            0,
            n - 1,
        ).contains(t) {
            seq![t]
        } else {
            Seq::empty()
        }
    }
}

/// `tiles` without two copies of `h`.
pub open spec fn without_pair(tiles: Seq<Tile>, h: Tile) -> Seq<Tile> {
    remove_first(remove_first(tiles, h), h)
}

/// The reading that starts from `h` as the pair.
pub open spec fn pair_node(tiles: Seq<Tile>, h: Tile, open: Seq<OpenView>) -> NodeView {
    NodeView {
        remaining: without_pair(tiles, h),
        open_sets: open,
        sets: seq![(MeldKind::Pair, seq![h, h])],
    }
}

/// The thirteen-orphans reading: the pair and the twelve other tiles.
pub open spec fn orphans_node(tiles: Seq<Tile>, h: Tile) -> NodeView {
    NodeView {
        remaining: Seq::empty(),
        open_sets: Seq::empty(),
        sets: seq![(MeldKind::Pair, seq![h, h]), (MeldKind::Body, without_pair(tiles, h))],
    }
}

/// The starting readings: one per pair candidate, then the thirteen-orphans
/// reading where a fully concealed hand of terminals and honours has exactly
/// one pair candidate.
pub open spec fn root_nodes(tiles: Seq<Tile>, open: Seq<OpenView>) -> Seq<NodeView> {
    let heads = pair_heads(tiles, tiles.len() as int);
    let regular = heads.map_values(|h: Tile| pair_node(tiles, h, open));
    if heads.len() == 1 && open.len() == 0 && all_yaotyu(tiles) {
        regular.push(orphans_node(tiles, heads[0]))
    } else {
        regular
    }
}

/// The finished readings that each of `ns` leads to, in order.
pub open spec fn expand(ns: Seq<NodeView>) -> Seq<NodeView>
    decreases ns.len(),
{
    if ns.len() == 0 {
        Seq::empty()
    } else {
        expand(ns.drop_last()) + leaves(ns.last().remaining, ns.last().sets, ns.last().open_sets)
    }
}

/// The pairs found when `s[..2k]` is read two tiles at a time, keeping each
/// couple of equal tiles.
pub open spec fn adjacent_pairs(s: Seq<Tile>, k: int) -> Seq<MeldView>
    decreases k,
{
    if k <= 0 || 2 * k > s.len() {
        Seq::empty()
    } else {
        adjacent_pairs(s, k - 1) + if s[2 * k - 2] == s[2 * k - 1] {
            seq![(MeldKind::Pair, seq![s[2 * k - 2], s[2 * k - 1]])]
        } else {
            Seq::empty()
        }
    }
}

/// The seven-pairs reading of `tiles`, when sorting them and reading them two
/// at a time gives seven pairs.
pub open spec fn seven_pairs_node(tiles: Seq<Tile>) -> Option<NodeView> {
    let sorted = canonical(tiles);
    let pairs = adjacent_pairs(sorted, sorted.len() as int / 2);
    if pairs.len() == 7 {
        Some(NodeView { remaining: Seq::empty(), open_sets: Seq::empty(), sets: pairs })
    } else {
        None
    }
}

/// Every reading of a hand as a winning shape: the regular readings, or, when
/// there are none, the seven-pairs reading if there is one.
pub open spec fn decompose(tiles: Seq<Tile>, open: Seq<OpenView>) -> Seq<NodeView> {
    let regular = expand(root_nodes(tiles, open));
    if regular.len() == 0 && seven_pairs_node(tiles) is Some {
        seq![seven_pairs_node(tiles)->0]
    } else {
        regular
    }
}

/// All tiles of the declared melds, meld after meld.
pub open spec fn open_tiles(os: Seq<OpenView>) -> Seq<Tile>
    decreases os.len(),
{
    if os.len() == 0 {
        Seq::empty()
    } else {
        open_tiles(os.drop_last()) + os.last().1
    }
}

/// The starting readings of a hand, before the search.
pub struct Root {
    pub nodes: Vec<Node>,
}

/// `v[i]` occurs in `v[..i]`.
fn occurs_before(v: &Vec<Tile>, i: usize) -> (r: bool)
    requires
        i < v.len(),
    ensures
        r == v@.subrange(0, i as int).contains(v@[i as int]),
{
    let mut j: usize = 0;
    while j < i
        invariant
            j <= i < v.len(),
            forall|k: int| 0 <= k < j ==> v@[k] != v@[i as int],
        decreases i - j,
    {
        if v[j] == v[i] {
            assert(v@.subrange(0, i as int)[j as int] == v@[i as int]);
            return true;
        }
        j += 1;
    }
    proof {
        if v@.subrange(0, i as int).contains(v@[i as int]) {
            let k = choose|k: int| 0 <= k < i && v@.subrange(0, i as int)[k] == v@[i as int];
            assert(v@[k] == v@[i as int]);
        }
    }
    false
}

impl Root {
    /// One starting reading per pair candidate, and the thirteen-orphans
    /// reading where it applies.
    pub fn new(hand: &Hand) -> (r: Root)
        requires
            hand.tiles@.len() <= 255,
        ensures
            nodes_view(r.nodes@) == root_nodes(hand.tiles@, opens_view(hand.open_sets@)),
    {
        let tiles = &hand.tiles;
        let ghost ts = tiles@;
        let ghost ov = opens_view(hand.open_sets@);
        let mut nodes: Vec<Node> = Vec::new();
        let mut heads: Vec<Tile> = Vec::new();
        let mut i: usize = 0;
        while i < tiles.len()
            invariant
                i <= tiles.len(),
                tiles@ == ts,
                ts.len() <= 255,
                ov == opens_view(hand.open_sets@),
                heads@ == pair_heads(ts, i as int),
                nodes_view(nodes@) == heads@.map_values(|h: Tile| pair_node(ts, h, ov)),
            decreases tiles.len() - i,
        {
            let t = tiles[i];
            if tiles.count(&t) >= 2 && !occurs_before(tiles, i) {
                let mut rest = copy_tiles(tiles);
                remove_tile(&mut rest, t);
                remove_tile(&mut rest, t);
                let n = Node {
                    remaining: rest,
                    open_sets: copy_opens(&hand.open_sets),
                    sets: vec![Meld::Pair(vec![t, t])],
                };
                assert(n@.sets =~= seq![(MeldKind::Pair, seq![t, t])]);
                push_node(&mut nodes, n);
                heads.push(t);
                assert(heads@.map_values(|h: Tile| pair_node(ts, h, ov)) =~= nodes_view(nodes@));
            }
            assert(pair_heads(ts, i + 1) == heads@);
            i += 1;
        }
        if heads.len() == 1 && hand.open_sets.len() == 0 && tiles.all_yaotyu() {
            let h = heads[0];
            let mut rest = copy_tiles(tiles);
            remove_tile(&mut rest, h);
            remove_tile(&mut rest, h);
            let n = Node {
                remaining: Vec::new(),
                open_sets: Vec::new(),
                sets: vec![Meld::Pair(vec![h, h]), Meld::Body(rest)],
            };
            assert(n@.sets =~= orphans_node(ts, h).sets);
            assert(n@.open_sets =~= orphans_node(ts, h).open_sets);
            assert(n@.remaining =~= orphans_node(ts, h).remaining);
            push_node(&mut nodes, n);
        }
        Root { nodes }
    }

    /// Every finished reading that the starting readings lead to.
    pub fn search_leafs(&self) -> (r: Vec<Node>)
        requires
            forall|k: int| 0 <= k < self.nodes@.len() ==> (#[trigger] self.nodes@[k]).remaining@.len() <= 255,
        ensures
            nodes_view(r@) == expand(nodes_view(self.nodes@)),
    {
        let mut leafs: Vec<Node> = Vec::new();
        let mut i: usize = 0;
        while i < self.nodes.len()
            invariant
                i <= self.nodes.len(),
                forall|k: int| 0 <= k < self.nodes@.len() ==> (#[trigger] self.nodes@[k]).remaining@.len() <= 255,
                nodes_view(leafs@) == expand(nodes_view(self.nodes@.subrange(0, i as int))),
            decreases self.nodes.len() - i,
        {
            let mut found = self.nodes[i].search_leafs();
            let ghost before = nodes_view(leafs@);
            let ghost add = nodes_view(found@);
            leafs.append(&mut found);
            proof {
                let ns = nodes_view(self.nodes@.subrange(0, i + 1));
                assert(ns.drop_last() =~= nodes_view(self.nodes@.subrange(0, i as int)));
                assert(ns.last() == self.nodes@[i as int]@);
                assert(nodes_view(leafs@) =~= before + add);
            }
            i += 1;
        }
        assert(self.nodes@.subrange(0, self.nodes.len() as int) == self.nodes@);
        leafs
    }
}

} // verus!

verus! {

/// A hand read every way it can be: all its tiles, its readings, and the
/// winning tile.
#[derive(Debug)]
pub struct ParsedHand {
    /// The concealed tiles followed by the tiles of the declared melds.
    pub tiles: Vec<Tile>,
    /// The finished readings.
    pub nodes: Vec<Node>,
    pub winning: Tile,
}

fn seven_pairs(sorted: &Vec<Tile>) -> (r: Vec<Meld>)
    ensures
        melds_view(r@) == adjacent_pairs(sorted@, sorted@.len() as int / 2),
{
    let mut sets: Vec<Meld> = Vec::new();
    let half = sorted.len() / 2;
    let mut k: usize = 1;
    while k <= half
        invariant
            1 <= k <= half + 1,
            half == sorted.len() / 2,
            melds_view(sets@) == adjacent_pairs(sorted@, k - 1),
        decreases half + 1 - k,
    {
        let a = sorted[2 * k - 2];
        let b = sorted[2 * k - 1];
        if a == b {
            let m = Meld::Pair(vec![a, b]);
            proof {
                assert(melds_view(sets@.push(m)) =~= melds_view(sets@).push(m@));
                assert(m@.1 =~= seq![a, b]);
            }
            sets.push(m);
        }
        assert(adjacent_pairs(sorted@, k as int) =~= melds_view(sets@));
        k += 1;
    }
    sets
}

fn append_open_tiles(tiles: &mut Vec<Tile>, open: &Vec<OpenSet>)
    ensures
        final(tiles)@ == old(tiles)@ + open_tiles(opens_view(open@)),
{
    let mut i: usize = 0;
    while i < open.len()
        invariant
            i <= open.len(),
            tiles@ == old(tiles)@ + open_tiles(opens_view(open@.subrange(0, i as int))),
        decreases open.len() - i,
    {
        let mut more = open[i].vec();
        let ghost before = tiles@;
        tiles.append(&mut more);
        proof {
            let os = opens_view(open@.subrange(0, i + 1));
            assert(os.drop_last() =~= opens_view(open@.subrange(0, i as int)));
            assert(os.last() == open@[i as int]@);
        }
        i += 1;
    }
    assert(open@.subrange(0, open.len() as int) == open@);
}

impl ParsedHand {
    /// Every reading of `hand` as a winning shape.
    pub fn new(hand: &Hand) -> (r: ParsedHand)
        requires
            hand.tiles@.len() <= 255,
        ensures
            nodes_view(r.nodes@) == decompose(hand.tiles@, opens_view(hand.open_sets@)),
            r.tiles@ == hand.tiles@ + open_tiles(opens_view(hand.open_sets@)),
            r.winning == hand.winning,
    {
        let mut tiles = copy_tiles(&hand.tiles);
        append_open_tiles(&mut tiles, &hand.open_sets);
        let root = Root::new(hand);
        proof {
            lemma_root_remaining(hand.tiles@, opens_view(hand.open_sets@));
            assert forall|k: int| 0 <= k < root.nodes@.len() implies (#[trigger] root.nodes@[k]).remaining@.len() <= 255 by {
                assert(nodes_view(root.nodes@)[k] == root.nodes@[k]@);
            }
        }
        let nodes = root.search_leafs();
        if nodes.len() == 0 {
            let sorted = sorted_tiles(&hand.tiles);
            let sets = seven_pairs(&sorted);
            if sets.len() == 7 {
                let node = Node { remaining: Vec::new(), open_sets: Vec::new(), sets };
                let mut one: Vec<Node> = Vec::new();
                push_node(&mut one, node);
                assert(node@.remaining =~= Seq::<Tile>::empty());
                assert(node@.open_sets =~= Seq::<OpenView>::empty());
                assert(nodes_view(one@) =~= decompose(hand.tiles@, opens_view(hand.open_sets@)));
                return ParsedHand { tiles, nodes: one, winning: hand.winning };
            }
        }
        ParsedHand { tiles, nodes, winning: hand.winning }
    }
}

proof fn lemma_root_remaining(tiles: Seq<Tile>, open: Seq<OpenView>)
    requires
        tiles.len() <= 255,
    ensures
        forall|k: int|
            0 <= k < root_nodes(tiles, open).len() ==> (#[trigger] root_nodes(tiles, open)[k]).remaining.len() <= 255,
{
    let heads = pair_heads(tiles, tiles.len() as int);
    assert forall|k: int| 0 <= k < root_nodes(tiles, open).len() implies (#[trigger] root_nodes(
        tiles,
        open,
    )[k]).remaining.len() <= 255 by {
        if k < heads.len() {
            let h = heads[k];
            lemma_remove_first_len(tiles, h);
            lemma_remove_first_len(remove_first(tiles, h), h);
        }
    }
}

} // verus!

verus! {

/// A finished reading whose melds, with three tiles counted per declared
/// meld, hold fourteen tiles.
pub open spec fn leaf_holds_fourteen(v: NodeView) -> bool {
    v.remaining.len() == 0 && meld_tile_total(v.sets) + 3 * v.open_sets.len() == 14
}

/// Every meld holds a tile.
pub open spec fn melds_nonempty(sets: Seq<MeldView>) -> bool {
    forall|j: int| 0 <= j < sets.len() ==> (#[trigger] sets[j]).1.len() >= 1
}

/// A reading on its way to fourteen tiles.
pub open spec fn node_on_track(v: NodeView) -> bool {
    tiles_wf(v.remaining) && meld_tile_total(v.sets) + v.remaining.len() + 3 * v.open_sets.len()
        == 14 && melds_nonempty(v.sets)
}

pub proof fn lemma_total_ge_len(sets: Seq<MeldView>)
    requires
        melds_nonempty(sets),
    ensures
        meld_tile_total(sets) >= sets.len(),
    decreases sets.len(),
{
    if sets.len() > 0 {
        let d = sets.drop_last();
        assert forall|j: int| 0 <= j < d.len() implies (#[trigger] d[j]).1.len() >= 1 by {
            assert(d[j] == sets[j]);
        }
        lemma_total_ge_len(d);
        assert(sets[sets.len() - 1].1.len() >= 1);
    }
}

proof fn lemma_expand_fourteen(ns: Seq<NodeView>)
    requires
        forall|k: int| 0 <= k < ns.len() ==> node_on_track(#[trigger] ns[k]),
    ensures
        forall|i: int| 0 <= i < expand(ns).len() ==> leaf_holds_fourteen(#[trigger] expand(ns)[i])
            && melds_nonempty(expand(ns)[i].sets),
    decreases ns.len(),
{
    if ns.len() > 0 {
        let d = ns.drop_last();
        assert forall|k: int| 0 <= k < d.len() implies node_on_track(#[trigger] d[k]) by {
            assert(d[k] == ns[k]);
        }
        lemma_expand_fourteen(d);
        let v = ns.last();
        assert(node_on_track(ns[ns.len() - 1]));
        lemma_leaves_extend(v.remaining, v.sets, v.open_sets);
        let l = leaves(v.remaining, v.sets, v.open_sets);
        assert(expand(ns) == expand(d) + l);
        assert forall|i: int| 0 <= i < expand(ns).len() implies leaf_holds_fourteen(
            #[trigger] expand(ns)[i],
        ) && melds_nonempty(expand(ns)[i].sets) by {
            if i >= expand(d).len() {
                let j = i - expand(d).len();
                assert(expand(ns)[i] == l[j]);
                let x = l[j];
                assert(leaf_extends(x, v.remaining, v.sets, v.open_sets));
                assert forall|q: int| 0 <= q < x.sets.len() implies (#[trigger] x.sets[q]).1.len() >= 1 by {
                    if q < v.sets.len() {
                        assert(x.sets[q] == x.sets.subrange(0, v.sets.len() as int)[q]);
                    } else {
                        assert(meld_valid(x.sets[q]));
                    }
                }
            } else {
                assert(expand(ns)[i] == expand(d)[i]);
            }
        }
    }
}

proof fn lemma_pair_heads_count(tiles: Seq<Tile>, n: int)
    ensures
        forall|k: int|
            0 <= k < pair_heads(tiles, n).len() ==> count_tile(tiles, #[trigger] pair_heads(tiles, n)[k]) >= 2,
    decreases n,
{
    if n > 0 && n <= tiles.len() {
        lemma_pair_heads_count(tiles, n - 1);
        let p = pair_heads(tiles, n - 1);
        assert forall|k: int| 0 <= k < pair_heads(tiles, n).len() implies count_tile(
            tiles,
            #[trigger] pair_heads(tiles, n)[k],
        ) >= 2 by {
            if k < p.len() {
                assert(pair_heads(tiles, n)[k] == p[k]);
            }
        }
    }
}

proof fn lemma_without_pair(tiles: Seq<Tile>, h: Tile)
    requires
        count_tile(tiles, h) >= 2,
        tiles_wf(tiles),
    ensures
        without_pair(tiles, h).len() == tiles.len() - 2,
        tiles_wf(without_pair(tiles, h)),
{
    lemma_count_contains(tiles, h);
    lemma_remove_first_len(tiles, h);
    lemma_count_remove_first(tiles, h);
    lemma_count_contains(remove_first(tiles, h), h);
    lemma_remove_first_len(remove_first(tiles, h), h);
    lemma_remove_first_subset(tiles, h);
    lemma_remove_first_subset(remove_first(tiles, h), h);
}

proof fn lemma_adjacent_pairs_total(s: Seq<Tile>, k: int)
    ensures
        adjacent_pairs(s, k).len() <= if k < 0 { 0 } else { k },
        meld_tile_total(adjacent_pairs(s, k)) == 2 * adjacent_pairs(s, k).len(),
    decreases k,
{
    if k > 0 && 2 * k <= s.len() {
        lemma_adjacent_pairs_total(s, k - 1);
        let p = adjacent_pairs(s, k - 1);
        if s[2 * k - 2] == s[2 * k - 1] {
            let m = (MeldKind::Pair, seq![s[2 * k - 2], s[2 * k - 1]]);
            assert(adjacent_pairs(s, k) == p.push(m));
            lemma_total_push(p, m);
        } else {
            assert(adjacent_pairs(s, k) == p);
        }
    }
}

proof fn lemma_adjacent_pairs_nonempty(s: Seq<Tile>, k: int)
    ensures
        melds_nonempty(adjacent_pairs(s, k)),
    decreases k,
{
    if k > 0 && 2 * k <= s.len() {
        lemma_adjacent_pairs_nonempty(s, k - 1);
        let p = adjacent_pairs(s, k - 1);
        let x = adjacent_pairs(s, k);
        assert forall|j: int| 0 <= j < x.len() implies (#[trigger] x[j]).1.len() >= 1 by {
            if j < p.len() {
                assert(x[j] == p[j]);
            }
        }
    }
}

/// Every reading of a hand places all its tiles: the concealed melds hold
/// fourteen tiles less three for each declared meld.
pub proof fn lemma_leaf_tile_total(tiles: Seq<Tile>, open: Seq<OpenView>)
    requires
        tiles_wf(tiles),
        tiles.len() + 3 * open.len() == 14,
    ensures
        forall|i: int|
            0 <= i < decompose(tiles, open).len() ==> leaf_holds_fourteen(
                #[trigger] decompose(tiles, open)[i],
            ),
        forall|i: int|
            0 <= i < decompose(tiles, open).len() ==> melds_nonempty(
                (#[trigger] decompose(tiles, open)[i]).sets,
            ),
{
    let ns = root_nodes(tiles, open);
    let heads = pair_heads(tiles, tiles.len() as int);
    lemma_pair_heads_count(tiles, tiles.len() as int);
    assert forall|k: int| 0 <= k < ns.len() implies node_on_track(#[trigger] ns[k]) by {
        if k < heads.len() {
            let h = heads[k];
            lemma_without_pair(tiles, h);
            let v = pair_node(tiles, h, open);
            assert(ns[k] == v);
            let m = (MeldKind::Pair, seq![h, h]);
            assert(v.sets =~= Seq::<MeldView>::empty().push(m));
            lemma_total_push(Seq::<MeldView>::empty(), m);
            assert(meld_tile_total(v.sets) == 2);
        } else {
            let h = heads[0];
            lemma_without_pair(tiles, h);
            let v = orphans_node(tiles, h);
            assert(ns[k] == v);
            let m1 = (MeldKind::Pair, seq![h, h]);
            let m2 = (MeldKind::Body, without_pair(tiles, h));
            assert(v.sets =~= Seq::<MeldView>::empty().push(m1).push(m2));
            lemma_total_push(Seq::<MeldView>::empty(), m1);
            lemma_total_push(Seq::<MeldView>::empty().push(m1), m2);
            assert(meld_tile_total(v.sets) == tiles.len());
        }
    }
    lemma_expand_fourteen(ns);
    if expand(ns).len() == 0 && seven_pairs_node(tiles) is Some {
        let sorted = canonical(tiles);
        lemma_canonical_props(tiles);
        lemma_adjacent_pairs_total(sorted, sorted.len() as int / 2);
        let v = seven_pairs_node(tiles)->0;
        assert(decompose(tiles, open)[0] == v);
        assert(leaf_holds_fourteen(v));
        lemma_adjacent_pairs_nonempty(sorted, sorted.len() as int / 2);
    }
}

} // verus!

verus! {

/// The melds of a reading and its unplaced tiles hold exactly `tiles`.
pub open spec fn node_conserves(v: NodeView, tiles: Seq<Tile>) -> bool {
    tiles_wf(v.remaining) && meld_tiles_flat(v.sets).to_multiset().add(v.remaining.to_multiset()) == tiles.to_multiset()
}

proof fn lemma_expand_conserves(ns: Seq<NodeView>, tiles: Seq<Tile>)
    requires
        forall|k: int| 0 <= k < ns.len() ==> node_conserves(#[trigger] ns[k], tiles),
    ensures
        forall|i: int|
            0 <= i < expand(ns).len() ==> meld_tiles_flat((#[trigger] expand(ns)[i]).sets).to_multiset()
                == tiles.to_multiset(),
    decreases ns.len(),
{
    if ns.len() > 0 {
        let d = ns.drop_last();
        assert forall|k: int| 0 <= k < d.len() implies node_conserves(#[trigger] d[k], tiles) by {
            assert(d[k] == ns[k]);
        }
        lemma_expand_conserves(d, tiles);
        let v = ns.last();
        assert(node_conserves(ns[ns.len() - 1], tiles));
        lemma_leaves_extend(v.remaining, v.sets, v.open_sets);
        let l = leaves(v.remaining, v.sets, v.open_sets);
        assert(expand(ns) == expand(d) + l);
        assert forall|i: int| 0 <= i < expand(ns).len() implies meld_tiles_flat(
            (#[trigger] expand(ns)[i]).sets,
        ).to_multiset() == tiles.to_multiset() by {
            if i >= expand(d).len() {
                assert(expand(ns)[i] == l[i - expand(d).len()]);
                assert(leaf_extends(l[i - expand(d).len()], v.remaining, v.sets, v.open_sets));
            } else {
                assert(expand(ns)[i] == expand(d)[i]);
            }
        }
    }
}

proof fn lemma_adjacent_pairs_flat(s: Seq<Tile>, k: int)
    requires
        0 <= k,
        2 * k <= s.len(),
        adjacent_pairs(s, k).len() == k,
    ensures
        meld_tiles_flat(adjacent_pairs(s, k)) == s.subrange(0, 2 * k),
    decreases k,
{
    if k > 0 {
        lemma_adjacent_pairs_total(s, k - 1);
        let p = adjacent_pairs(s, k - 1);
        assert(s[2 * k - 2] == s[2 * k - 1]);
        let m = (MeldKind::Pair, seq![s[2 * k - 2], s[2 * k - 1]]);
        assert(adjacent_pairs(s, k) == p.push(m));
        lemma_adjacent_pairs_flat(s, k - 1);
        assert(p.push(m).drop_last() == p);
        assert(meld_tiles_flat(p.push(m)) == meld_tiles_flat(p) + m.1);
        assert(s.subrange(0, 2 * k - 2) + m.1 =~= s.subrange(0, 2 * k));
    } else {
        assert(s.subrange(0, 0) =~= Seq::<Tile>::empty());
    }
}

/// Every reading of a hand uses exactly its concealed tiles, each as often
/// as the hand holds it.
pub proof fn lemma_readings_use_hand_tiles(tiles: Seq<Tile>, open: Seq<OpenView>)
    requires
        tiles_wf(tiles),
        tiles.len() + 3 * open.len() == 14,
    ensures
        forall|i: int|
            0 <= i < decompose(tiles, open).len() ==> meld_tiles_flat(
                (#[trigger] decompose(tiles, open)[i]).sets,
            ).to_multiset() == tiles.to_multiset(),
{
    broadcast use vstd::seq_lib::group_to_multiset_ensures;

    let ns = root_nodes(tiles, open);
    let heads = pair_heads(tiles, tiles.len() as int);
    lemma_pair_heads_count(tiles, tiles.len() as int);
    assert forall|k: int| 0 <= k < ns.len() implies node_conserves(#[trigger] ns[k], tiles) by {
        let h = if k < heads.len() { heads[k] } else { heads[0] };
        lemma_without_pair(tiles, h);
        lemma_count_contains(tiles, h);
        lemma_count_remove_first(tiles, h);
        lemma_count_contains(remove_first(tiles, h), h);
        lemma_remove_first_multiset(tiles, h);
        lemma_remove_first_multiset(remove_first(tiles, h), h);
        let w = without_pair(tiles, h);
        let pair = seq![h, h];
        assert(pair == Seq::<Tile>::empty().push(h).push(h));
        let m1 = (MeldKind::Pair, pair);
        assert(meld_tiles_flat(seq![m1]) == pair) by {
            assert(seq![m1].drop_last() =~= Seq::<MeldView>::empty());
            assert(meld_tiles_flat(Seq::<MeldView>::empty()) == Seq::<Tile>::empty());
            assert(seq![m1].last() == m1);
            assert(Seq::<Tile>::empty() + pair =~= pair);
        }
        if k < heads.len() {
            let v = pair_node(tiles, h, open);
            assert(ns[k] == v);
            assert(v.sets == seq![m1]);
            assert(pair.to_multiset().add(w.to_multiset()) =~= tiles.to_multiset());
        } else {
            let v = orphans_node(tiles, h);
            assert(ns[k] == v);
            let m2 = (MeldKind::Body, w);
            assert(v.sets == seq![m1, m2]);
            assert(seq![m1, m2].drop_last() =~= seq![m1]);
            assert(meld_tiles_flat(v.sets) == pair + w);
            vstd::seq_lib::lemma_multiset_commutative(pair, w);
            assert(v.remaining.to_multiset() =~= Multiset::<Tile>::empty());
            assert(meld_tiles_flat(v.sets).to_multiset().add(v.remaining.to_multiset()) =~= tiles.to_multiset());
        }
    }
    lemma_expand_conserves(ns, tiles);
    if expand(ns).len() == 0 && seven_pairs_node(tiles) is Some {
        let sorted = canonical(tiles);
        lemma_canonical_props(tiles);
        let k = sorted.len() as int / 2;
        lemma_adjacent_pairs_total(sorted, k);
        lemma_adjacent_pairs_flat(sorted, k);
        assert(sorted.subrange(0, 2 * k) =~= sorted);
        let v = seven_pairs_node(tiles)->0;
        assert(decompose(tiles, open)[0] == v);
    }
}

} // verus!
