//! The tile notation: `123m` runs of ranks closed by a suit marker, honour
//! characters, `[...]` called melds and `(...)` concealed quads.
use vstd::prelude::*;
use crate::tiles::{Tile, Honour, Wind, Dragon, tile_wf};
use crate::groups::{
    Hand, OpenSet, OpenKind, HandError, Tiles, tiles_wf, canonical, sorted_tiles, is_flat_seq,
    is_sequential_seq, open_kind_of,
};
use crate::parse::{OpenView, opens_view};

verus! {

pub open spec fn digit_of(c: char) -> Option<u8> {
    if '0' <= c && c <= '9' {
        Some((c as u32 - '0' as u32) as u8)
    } else {
        None
    }
}

/// The numbered tile of rank `r` in the suit that marker `c` names.
pub open spec fn suited_tile(c: char, r: u8) -> Option<Tile> {
    if c == 'm' || c == '萬' {
        Some(Tile::Character(r))
    } else if c == 'p' || c == '筒' {
        Some(Tile::Circle(r))
    } else if c == 's' || c == '索' {
        Some(Tile::Bamboo(r))
    } else {
        None
    }
}

/// The honour that character `c` stands for.
pub open spec fn honour_of(c: char) -> Option<Tile> {
    if c == 'E' || c == '東' {
        Some(Tile::Honour(Honour::Wind(Wind::East)))
    } else if c == 'S' || c == '南' {
        Some(Tile::Honour(Honour::Wind(Wind::South)))
    } else if c == 'W' || c == '西' {
        Some(Tile::Honour(Honour::Wind(Wind::West)))
    } else if c == 'N' || c == '北' {
        Some(Tile::Honour(Honour::Wind(Wind::North)))
    } else if c == 'D' || c == 'P' || c == '白' {
        Some(Tile::Honour(Honour::Dragon(Dragon::White)))
    } else if c == 'H' || c == 'F' || c == '發' || c == '発' {
        Some(Tile::Honour(Honour::Dragon(Dragon::Green)))
    } else if c == 'T' || c == 'C' || c == '中' {
        Some(Tile::Honour(Honour::Dragon(Dragon::Red)))
    } else {
        None
    }
}

/// The end of the run of digits that starts at `i`.
pub open spec fn digit_run_end(s: Seq<char>, i: int) -> int
    decreases s.len() - i,
{
    if 0 <= i < s.len() && digit_of(s[i]) is Some {
        digit_run_end(s, i + 1)
    } else {
        i
    }
}

pub proof fn lemma_digit_run_end(s: Seq<char>, i: int)
    requires
        0 <= i <= s.len(),
    ensures
        i <= digit_run_end(s, i) <= s.len(),
        forall|k: int| i <= k < digit_run_end(s, i) ==> digit_of(#[trigger] s[k]) is Some,
        digit_run_end(s, i) < s.len() ==> digit_of(s[digit_run_end(s, i)]) is None,
    decreases s.len() - i,
{
    if i < s.len() && digit_of(s[i]) is Some {
        lemma_digit_run_end(s, i + 1);
    }
}

/// The tiles of the ranks `s[i..j]` in the suit of marker `c`.
pub open spec fn run_tiles(s: Seq<char>, i: int, j: int, c: char) -> Seq<Tile> {
    Seq::new((j - i) as nat, |k: int| suited_tile(c, digit_of(s[i + k])->0)->0)
}

pub open spec fn has_zero(s: Seq<char>, i: int, j: int) -> bool {
    exists|k: int| i <= k < j && #[trigger] s[k] == '0'
}

/// Reads tiles from position `i` on: a run of ranks closed by a suit marker,
/// or an honour character, again and again. The first fault from the left
/// decides the error: a rank 0, a run that nothing closes, or a character
/// that stands for nothing.
pub open spec fn parse_tiles_from(s: Seq<char>, i: int) -> Result<Seq<Tile>, HandError>
    decreases s.len() - i,
{
    if i < 0 || i >= s.len() {
        Ok(Seq::empty())
    } else if digit_of(s[i]) is Some {
        let j = digit_run_end(s, i);
        proof {
            lemma_digit_run_end(s, i);
        }
        if has_zero(s, i, j) {
            Err(HandError::InvalidNumber)
        } else if j >= s.len() {
            Err(HandError::Incomplete)
        } else if suited_tile(s[j], 1) is Some {
            match parse_tiles_from(s, j + 1) {
                Ok(rest) => Ok(run_tiles(s, i, j, s[j]) + rest),
                Err(e) => Err(e),
            }
        } else {
            Err(HandError::InvalidCharacter)
        }
    } else if honour_of(s[i]) is Some {
        match parse_tiles_from(s, i + 1) {
            Ok(rest) => Ok(seq![honour_of(s[i])->0] + rest),
            Err(e) => Err(e),
        }
    } else {
        Err(HandError::InvalidCharacter)
    }
}

/// The tiles that the notation `s` writes, in the order written.
pub open spec fn parse_tiles(s: Seq<char>) -> Result<Seq<Tile>, HandError> {
    parse_tiles_from(s, 0)
}

pub open spec fn prepend(acc: Seq<Tile>, r: Result<Seq<Tile>, HandError>) -> Result<Seq<Tile>, HandError> {
    match r {
        Ok(t) => Ok(acc + t),
        Err(e) => Err(e),
    }
}

fn digit_exec(c: char) -> (r: Option<u8>)
    ensures
        r == digit_of(c),
{
    if '0' <= c && c <= '9' {
        Some((c as u32 - '0' as u32) as u8)
    } else {
        None
    }
}

fn suited_exec(c: char, r: u8) -> (t: Option<Tile>)
    ensures
        t == suited_tile(c, r),
{
    if c == 'm' || c == '萬' {
        Some(Tile::Character(r))
    } else if c == 'p' || c == '筒' {
        Some(Tile::Circle(r))
    } else if c == 's' || c == '索' {
        Some(Tile::Bamboo(r))
    } else {
        None
    }
}

fn honour_exec(c: char) -> (t: Option<Tile>)
    ensures
        t == honour_of(c),
{
    if c == 'E' || c == '東' {
        Some(Wind::East.tile())
    } else if c == 'S' || c == '南' {
        Some(Wind::South.tile())
    } else if c == 'W' || c == '西' {
        Some(Wind::West.tile())
    } else if c == 'N' || c == '北' {
        Some(Wind::North.tile())
    } else if c == 'D' || c == 'P' || c == '白' {
        Some(Dragon::White.tile())
    } else if c == 'H' || c == 'F' || c == '發' || c == '発' {
        Some(Dragon::Green.tile())
    } else if c == 'T' || c == 'C' || c == '中' {
        Some(Dragon::Red.tile())
    } else {
        None
    }
}

/// The tiles that the characters `s` write.
pub fn parse_tile_chars(s: &Vec<char>) -> (r: Result<Vec<Tile>, HandError>)
    ensures
        match r {
            Ok(v) => parse_tiles(s@) == Ok::<Seq<Tile>, HandError>(v@),
            Err(e) => parse_tiles(s@) == Err::<Seq<Tile>, HandError>(e),
        },
{
    let mut acc: Vec<Tile> = Vec::new();
    let mut i: usize = 0;
    while i < s.len()
        invariant
            i <= s.len(),
            parse_tiles(s@) == prepend(acc@, parse_tiles_from(s@, i as int)),
        decreases s.len() - i,
    {
        let c = s[i];
        match digit_exec(c) {
            Some(_) => {
                let mut j: usize = i;
                let mut zero = false;
                while j < s.len() && digit_exec(s[j]).is_some()
                    invariant
                        i <= j <= s.len(),
                        forall|k: int| i <= k < j ==> digit_of(#[trigger] s@[k]) is Some,
                        zero == has_zero(s@, i as int, j as int),
                        digit_run_end(s@, i as int) == digit_run_end(s@, j as int),
                    decreases s.len() - j,
                {
                    if s[j] == '0' {
                        zero = true;
                    }
                    proof {
                        if !zero {
                            assert(!has_zero(s@, i as int, j + 1)) by {
                                if has_zero(s@, i as int, j + 1) {
                                    let k = choose|k: int| i <= k < j + 1 && #[trigger] s@[k] == '0';
                                    if k < j {
                                        assert(has_zero(s@, i as int, j as int));
                                    }
                                }
                            }
                        } else {
                            if s@[j as int] == '0' {
                                assert(s@[j as int] == '0');
                            } else {
                                let k = choose|k: int| i <= k < j && #[trigger] s@[k] == '0';
                            }
                        }
                    }
                    j += 1;
                }
                proof {
                    lemma_digit_run_end(s@, i as int);
                }
                assert(j == digit_run_end(s@, i as int));
                if zero {
                    return Err(HandError::InvalidNumber);
                }
                if j >= s.len() {
                    return Err(HandError::Incomplete);
                }
                let marker = s[j];
                if suited_exec(marker, 1).is_none() {
                    return Err(HandError::InvalidCharacter);
                }
                let ghost before = acc@;
                let mut k: usize = i;
                while k < j
                    invariant
                        i <= k <= j < s.len(),
                        forall|q: int| i <= q < j ==> digit_of(#[trigger] s@[q]) is Some,
                        suited_tile(marker, 1) is Some,
                        marker == s@[j as int],
                        acc@ == before + run_tiles(s@, i as int, k as int, marker),
                    decreases j - k,
                {
                    let d = match digit_exec(s[k]) {
                        Some(d) => d,
                        None => 0,
                    };
                    let t = match suited_exec(marker, d) {
                        Some(t) => t,
                        None => Tile::Character(d),
                    };
                    acc.push(t);
                    assert(acc@ =~= before + run_tiles(s@, i as int, k + 1, marker));
                    k += 1;
                }
                proof {
                    let run = run_tiles(s@, i as int, j as int, marker);
                    assert(parse_tiles_from(s@, i as int) == match parse_tiles_from(s@, j + 1) {
                        Ok(rest) => Ok(run + rest),
                        Err(e) => Err(e),
                    });
                    match parse_tiles_from(s@, j + 1) {
                        Ok(rest) => {
                            assert(before + (run + rest) =~= (before + run) + rest);
                        },
                        Err(e) => {},
                    }
                }
                i = j + 1;
            },
            None => {
                match honour_exec(c) {
                    Some(t) => {
                        let ghost before = acc@;
                        acc.push(t);
                        assert(acc@ =~= before + seq![t]);
                        proof {
                            match parse_tiles_from(s@, i + 1) {
                                Ok(rest) => {
                                    assert(before + (seq![t] + rest) =~= (before + seq![t]) + rest);
                                },
                                Err(e) => {},
                            }
                        }
                        i += 1;
                    },
                    None => {
                        return Err(HandError::InvalidCharacter);
                    },
                }
            },
        }
    }
    assert(acc@ + Seq::<Tile>::empty() =~= acc@);
    Ok(acc)
}

} // verus!

verus! {

/// The characters of `s`.
pub fn chars_of(s: &str) -> (r: Vec<char>)
    ensures
        r@ == s@,
{
    let mut v: Vec<char> = Vec::new();
    for c in it: s.chars()
        invariant
            v@ == it.seq().take(it.index() as int),
    {
        v.push(c);
    }
    assert(v@ =~= s@);
    v
}

} // verus!

verus! {

pub open spec fn is_open_bracket(c: char) -> bool {
    c == '[' || c == '('
}

/// The first opening bracket at or after `i`, or the end.
pub open spec fn next_bracket(s: Seq<char>, i: int) -> int
    decreases s.len() - i,
{
    if 0 <= i < s.len() && !is_open_bracket(s[i]) {
        next_bracket(s, i + 1)
    } else {
        i
    }
}

/// The first `ch` at or after `i`, or the end.
pub open spec fn next_char(s: Seq<char>, i: int, ch: char) -> int
    decreases s.len() - i,
{
    if 0 <= i < s.len() && s[i] != ch {
        next_char(s, i + 1, ch)
    } else {
        i
    }
}

pub proof fn lemma_next_bracket(s: Seq<char>, i: int)
    requires
        0 <= i <= s.len(),
    ensures
        i <= next_bracket(s, i) <= s.len(),
        next_bracket(s, i) < s.len() ==> is_open_bracket(s[next_bracket(s, i)]),
    decreases s.len() - i,
{
    if i < s.len() && !is_open_bracket(s[i]) {
        lemma_next_bracket(s, i + 1);
    }
}

pub proof fn lemma_next_char(s: Seq<char>, i: int, ch: char)
    requires
        0 <= i <= s.len(),
    ensures
        i <= next_char(s, i, ch) <= s.len(),
    decreases s.len() - i,
{
    if i < s.len() && s[i] != ch {
        lemma_next_char(s, i + 1, ch);
    }
}

/// A called meld `[...]`: its tiles in canonical order form a triplet, a run
/// or a quad.
pub open spec fn open_meld_of(inner: Seq<char>) -> Result<OpenView, HandError> {
    match parse_tiles(inner) {
        Err(e) => Err(e),
        Ok(t) => {
            let v = canonical(t);
            match open_kind_of(v) {
                Some(k) => Ok((k, v)),
                None => Err(HandError::InvalidMeld),
            }
        },
    }
}

/// A concealed quad `(...)`: four identical tiles.
pub open spec fn concealed_kong_of(inner: Seq<char>) -> Result<OpenView, HandError> {
    match parse_tiles(inner) {
        Err(e) => Err(e),
        Ok(t) => if t.len() == 4 && is_flat_seq(t) {
            Ok((OpenKind::ConcealedKong, t))
        } else {
            Err(HandError::InvalidMeld)
        },
    }
}

/// Reads a hand from position `i` on: plain tiles up to an opening bracket,
/// then the meld up to its closing bracket (or the end), and so on; the first
/// fault from the left decides the error.
pub open spec fn parse_hand_from(s: Seq<char>, i: int) -> Result<(Seq<Tile>, Seq<OpenView>), HandError>
    decreases s.len() - i,
{
    if i < 0 || i >= s.len() {
        Ok((Seq::empty(), Seq::empty()))
    } else {
        let k = next_bracket(s, i);
        proof {
            lemma_next_bracket(s, i);
        }
        match parse_tiles(s.subrange(i, k)) {
            Err(e) => Err(e),
            Ok(plain) => if k >= s.len() {
                Ok((plain, Seq::empty()))
            } else {
                let square = s[k] == '[';
                let c = next_char(s, k + 1, if square { ']' } else { ')' });
                proof {
                    lemma_next_char(s, k + 1, if square { ']' } else { ')' });
                }
                let inner = s.subrange(k + 1, c);
                let meld = if square { open_meld_of(inner) } else { concealed_kong_of(inner) };
                match meld {
                    Err(e) => Err(e),
                    Ok(m) => {
                        let after = if c < s.len() {
                            parse_hand_from(s, c + 1)
                        } else {
                            Ok((Seq::empty(), Seq::empty()))
                        };
                        match after {
                            Err(e) => Err(e),
                            Ok(rest) => Ok((plain + rest.0, seq![m] + rest.1)),
                        }
                    },
                }
            },
        }
    }
}

/// The hand that `s` writes: its concealed tiles in canonical order, its
/// declared melds, and its winning tile, the last concealed tile written.
/// Three tiles count for each declared meld; 14 in all are needed.
pub open spec fn parse_hand(s: Seq<char>) -> Result<(Seq<Tile>, Seq<OpenView>, Tile), HandError> {
    match parse_hand_from(s, 0) {
        Err(e) => Err(e),
        Ok(p) => if p.0.len() + 3 * p.1.len() < 14 {
            Err(HandError::TooFewTiles)
        } else if p.0.len() + 3 * p.1.len() > 14 {
            Err(HandError::TooManyTiles)
        } else {
            Ok((canonical(p.0), p.1, p.0.last()))
        },
    }
}

fn sub_chars(s: &Vec<char>, lo: usize, hi: usize) -> (r: Vec<char>)
    requires
        lo <= hi <= s.len(),
    ensures
        r@ == s@.subrange(lo as int, hi as int),
{
    let mut r: Vec<char> = Vec::new();
    let mut i: usize = lo;
    while i < hi
        invariant
            lo <= i <= hi <= s.len(),
            r@ == s@.subrange(lo as int, i as int),
        decreases hi - i,
    {
        r.push(s[i]);
        assert(r@ =~= s@.subrange(lo as int, i + 1));
        i += 1;
    }
    r
}

/// A declared meld from the characters between `[` and `]`.
pub fn parse_open_chars(inner: &Vec<char>) -> (r: Result<OpenSet, HandError>)
    ensures
        match r {
            Ok(m) => open_meld_of(inner@) == Ok::<OpenView, HandError>(m@),
            Err(e) => open_meld_of(inner@) == Err::<OpenView, HandError>(e),
        },
{
    let tiles = parse_tile_chars(inner)?;
    let v = sorted_tiles(&tiles);
    if v.len() == 3 && v.is_flat() {
        Ok(OpenSet::Pung(v))
    } else if v.len() == 3 && v.is_sequential() {
        Ok(OpenSet::Chow(v))
    } else if v.len() == 4 && v.is_flat() {
        Ok(OpenSet::Kong(v))
    } else {
        Err(HandError::InvalidMeld)
    }
}

/// A concealed quad from the characters between `(` and `)`.
pub fn parse_concealed_kong_chars(inner: &Vec<char>) -> (r: Result<OpenSet, HandError>)
    ensures
        match r {
            Ok(m) => concealed_kong_of(inner@) == Ok::<OpenView, HandError>(m@),
            Err(e) => concealed_kong_of(inner@) == Err::<OpenView, HandError>(e),
        },
{
    let tiles = parse_tile_chars(inner)?;
    if tiles.len() == 4 && tiles.is_flat() {
        Ok(OpenSet::ConcealedKong(tiles))
    } else {
        Err(HandError::InvalidMeld)
    }
}

pub open spec fn prepend_hand(
    t: Seq<Tile>,
    os: Seq<OpenView>,
    r: Result<(Seq<Tile>, Seq<OpenView>), HandError>,
) -> Result<(Seq<Tile>, Seq<OpenView>), HandError> {
    match r {
        Ok(p) => Ok((t + p.0, os + p.1)),
        Err(e) => Err(e),
    }
}

fn append_tiles(acc: &mut Vec<Tile>, more: Vec<Tile>)
    ensures
        final(acc)@ == old(acc)@ + more@,
{
    let mut m = more;
    acc.append(&mut m);
}

/// The concealed tiles and declared melds that `s` writes, in the order
/// written.
pub fn parse_hand_chars(s: &Vec<char>) -> (r: Result<(Vec<Tile>, Vec<OpenSet>), HandError>)
    ensures
        match r {
            Ok(p) => parse_hand_from(s@, 0) == Ok::<(Seq<Tile>, Seq<OpenView>), HandError>((p.0@, opens_view(p.1@))),
            Err(e) => parse_hand_from(s@, 0) == Err::<(Seq<Tile>, Seq<OpenView>), HandError>(e),
        },
{
    let mut tiles: Vec<Tile> = Vec::new();
    let mut opens: Vec<OpenSet> = Vec::new();
    let mut i: usize = 0;
    while i < s.len()
        invariant
            i <= s.len(),
            parse_hand_from(s@, 0) == prepend_hand(tiles@, opens_view(opens@), parse_hand_from(s@, i as int)),
        decreases s.len() - i,
    {
        let mut k: usize = i;
        while k < s.len() && s[k] != '[' && s[k] != '('
            invariant
                i <= k <= s.len(),
                next_bracket(s@, i as int) == next_bracket(s@, k as int),
            decreases s.len() - k,
        {
            k += 1;
        }
        proof {
            lemma_next_bracket(s@, i as int);
        }
        assert(k == next_bracket(s@, i as int));
        let plain = parse_tile_chars(&sub_chars(s, i, k))?;
        let ghost t0 = tiles@;
        let ghost o0 = opens_view(opens@);
        if k >= s.len() {
            append_tiles(&mut tiles, plain);
            proof {
                assert(parse_hand_from(s@, i as int) == Ok::<(Seq<Tile>, Seq<OpenView>), HandError>((plain@, Seq::empty())));
                assert(parse_hand_from(s@, s.len() as int) == Ok::<(Seq<Tile>, Seq<OpenView>), HandError>((Seq::empty(), Seq::empty())));
                assert(tiles@ + Seq::<Tile>::empty() =~= tiles@);
                assert(o0 + Seq::<OpenView>::empty() =~= o0);
                assert(opens_view(opens@) + Seq::<OpenView>::empty() =~= opens_view(opens@));
            }
            i = s.len();
        } else {
            let square = s[k] == '[';
            let close = if square { ']' } else { ')' };
            let mut c: usize = k + 1;
            while c < s.len() && s[c] != close
                invariant
                    k + 1 <= c <= s.len(),
                    next_char(s@, k + 1, close) == next_char(s@, c as int, close),
                decreases s.len() - c,
            {
                c += 1;
            }
            proof {
                lemma_next_char(s@, k + 1, close);
            }
            let inner = sub_chars(s, k + 1, c);
            let m = if square { parse_open_chars(&inner)? } else { parse_concealed_kong_chars(&inner)? };
            append_tiles(&mut tiles, plain);
            let ghost mv = m@;
            opens.push(m);
            let next = if c < s.len() { c + 1 } else { s.len() };
            proof {
                assert(opens_view(opens@) =~= o0 + seq![mv]);
                let after = if c < s.len() {
                    parse_hand_from(s@, c + 1)
                } else {
                    Ok((Seq::empty(), Seq::empty()))
                };
                assert(parse_hand_from(s@, next as int) == after);
                match after {
                    Ok(rest) => {
                        assert(t0 + (plain@ + rest.0) =~= (t0 + plain@) + rest.0);
                        assert(o0 + (seq![mv] + rest.1) =~= (o0 + seq![mv]) + rest.1);
                    },
                    Err(e) => {},
                }
            }
            i = next;
        }
    }
    proof {
        assert(tiles@ + Seq::<Tile>::empty() =~= tiles@);
        assert(opens_view(opens@) + Seq::<OpenView>::empty() =~= opens_view(opens@));
    }
    Ok((tiles, opens))
}

} // verus!

verus! {

proof fn lemma_parse_tiles_wf(s: Seq<char>, i: int)
    ensures
        parse_tiles_from(s, i) matches Ok(t) ==> tiles_wf(t),
    decreases s.len() - i,
{
    if 0 <= i < s.len() {
        if digit_of(s[i]) is Some {
            let j = digit_run_end(s, i);
            lemma_digit_run_end(s, i);
            if !has_zero(s, i, j) && j < s.len() && suited_tile(s[j], 1) is Some {
                lemma_parse_tiles_wf(s, j + 1);
                let run = run_tiles(s, i, j, s[j]);
                assert forall|k: int| 0 <= k < run.len() implies tile_wf(#[trigger] run[k]) by {
                    assert(digit_of(s[i + k]) is Some);
                    assert(s[i + k] != '0');
                }
                if let Ok(rest) = parse_tiles_from(s, j + 1) {
                    let t = run + rest;
                    assert forall|k: int| 0 <= k < t.len() implies tile_wf(#[trigger] t[k]) by {
                        if k < run.len() {
                            assert(t[k] == run[k]);
                        } else {
                            assert(t[k] == rest[k - run.len()]);
                        }
                    }
                }
            }
        } else if honour_of(s[i]) is Some {
            lemma_parse_tiles_wf(s, i + 1);
            if let Ok(rest) = parse_tiles_from(s, i + 1) {
                let t = seq![honour_of(s[i])->0] + rest;
                assert forall|k: int| 0 <= k < t.len() implies tile_wf(#[trigger] t[k]) by {
                    if k > 0 {
                        assert(t[k] == rest[k - 1]);
                    }
                }
            }
        }
    }
}

proof fn lemma_parse_hand_wf(s: Seq<char>, i: int)
    ensures
        parse_hand_from(s, i) matches Ok(p) ==> tiles_wf(p.0),
    decreases s.len() - i,
{
    if 0 <= i < s.len() {
        let k = next_bracket(s, i);
        lemma_next_bracket(s, i);
        lemma_parse_tiles_wf(s.subrange(i, k), 0);
        if k < s.len() {
            let square = s[k] == '[';
            let c = next_char(s, k + 1, if square { ']' } else { ')' });
            lemma_next_char(s, k + 1, if square { ']' } else { ')' });
            if c < s.len() {
                lemma_parse_hand_wf(s, c + 1);
            }
        }
        if let Ok(p) = parse_hand_from(s, i) {
            if let Ok(plain) = parse_tiles(s.subrange(i, k)) {
                if k < s.len() {
                    let square = s[k] == '[';
                    let c = next_char(s, k + 1, if square { ']' } else { ')' });
                    let after = if c < s.len() {
                        parse_hand_from(s, c + 1)
                    } else {
                        Ok((Seq::empty(), Seq::empty()))
                    };
                    if let Ok(rest) = after {
                        assert(p.0 == plain + rest.0);
                        assert forall|q: int| 0 <= q < p.0.len() implies tile_wf(#[trigger] p.0[q]) by {
                            if q < plain.len() {
                                assert(p.0[q] == plain[q]);
                            } else {
                                assert(p.0[q] == rest.0[q - plain.len()]);
                            }
                        }
                    }
                }
            }
        }
    }
}

/// A parsed hand holds well-formed tiles, fourteen counting three per
/// declared meld.
pub proof fn lemma_parse_hand_wf_result(s: Seq<char>)
    ensures
        parse_hand(s) matches Ok(h) ==> tiles_wf(h.0) && h.0.len() + 3 * h.1.len() == 14
            && crate::groups::is_sorted_tiles(h.0),
{
    lemma_parse_hand_wf(s, 0);
    if let Ok(p) = parse_hand_from(s, 0) {
        crate::groups::lemma_canonical_props(p.0);
        let c = canonical(p.0);
        assert forall|q: int| 0 <= q < c.len() implies tile_wf(#[trigger] c[q]) by {
            broadcast use vstd::seq_lib::group_to_multiset_ensures;
            assert(c.to_multiset().count(c[q]) > 0);
            assert(p.0.to_multiset().count(c[q]) > 0);
            assert(p.0.contains(c[q]));
        }
    }
}

/// A run of tiles written in the notation.
pub struct TilesNewType(pub Vec<Tile>);

impl TilesNewType {
    /// The tiles that `s` writes, in the order written.
    pub fn parse(s: &str) -> (r: Result<TilesNewType, HandError>)
        ensures
            match r {
                Ok(t) => parse_tiles(s@) == Ok::<Seq<Tile>, HandError>(t.0@),
                Err(e) => parse_tiles(s@) == Err::<Seq<Tile>, HandError>(e),
            },
    {
        let chars = chars_of(s);
        let tiles = parse_tile_chars(&chars)?;
        Ok(TilesNewType(tiles))
    }
}

impl OpenSet {
    /// The called meld that `s` writes (what stands between `[` and `]`).
    pub fn parse(s: &str) -> (r: Result<OpenSet, HandError>)
        ensures
            match r {
                Ok(m) => open_meld_of(s@) == Ok::<OpenView, HandError>(m@),
                Err(e) => open_meld_of(s@) == Err::<OpenView, HandError>(e),
            },
    {
        parse_open_chars(&chars_of(s))
    }
}

impl Hand {
    /// The hand that `s` writes.
    pub fn parse(s: &str) -> (r: Result<Hand, HandError>)
        ensures
            match r {
                Ok(h) => parse_hand(s@) == Ok::<(Seq<Tile>, Seq<OpenView>, Tile), HandError>(
                    (h.tiles@, opens_view(h.open_sets@), h.winning),
                ),
                Err(e) => parse_hand(s@) == Err::<(Seq<Tile>, Seq<OpenView>, Tile), HandError>(e),
            },
    {
        let chars = chars_of(s);
        let (tiles, open_sets) = parse_hand_chars(&chars)?;
        if tiles.len() > 14 || open_sets.len() > 4 {
            return Err(HandError::TooManyTiles);
        }
        let total = tiles.len() + 3 * open_sets.len();
        if total < 14 {
            return Err(HandError::TooFewTiles);
        } else if total > 14 {
            return Err(HandError::TooManyTiles);
        }
        let winning = tiles[tiles.len() - 1];
        let sorted = sorted_tiles(&tiles);
        Ok(Hand { tiles: sorted, open_sets, winning })
    }
}

impl std::str::FromStr for TilesNewType {
    type Err = HandError;

    fn from_str(s: &str) -> Result<Self, Self::Err> {
        TilesNewType::parse(s)
    }
}

impl std::str::FromStr for OpenSet {
    type Err = HandError;

    fn from_str(s: &str) -> Result<Self, Self::Err> {
        OpenSet::parse(s)
    }
}

impl std::str::FromStr for Hand {
    type Err = HandError;

    fn from_str(s: &str) -> Result<Self, Self::Err> {
        Hand::parse(s)
    }
}

} // verus!

verus! {

pub open spec fn digit_char(r: u8) -> char {
    if r == 1 {
        '1'
    } else if r == 2 {
        '2'
    } else if r == 3 {
        '3'
    } else if r == 4 {
        '4'
    } else if r == 5 {
        '5'
    } else if r == 6 {
        '6'
    } else if r == 7 {
        '7'
    } else if r == 8 {
        '8'
    } else {
        '9'
    }
}

/// How one tile is written: rank and suit marker, or the honour's letter.
pub open spec fn tile_chars(t: Tile) -> Seq<char> {
    match t {
        Tile::Character(n) => seq![digit_char(n), 'm'],
        Tile::Circle(n) => seq![digit_char(n), 'p'],
        Tile::Bamboo(n) => seq![digit_char(n), 's'],
        Tile::Honour(Honour::Wind(Wind::East)) => seq!['E'],
        Tile::Honour(Honour::Wind(Wind::South)) => seq!['S'],
        Tile::Honour(Honour::Wind(Wind::West)) => seq!['W'],
        Tile::Honour(Honour::Wind(Wind::North)) => seq!['N'],
        Tile::Honour(Honour::Dragon(Dragon::White)) => seq!['D'],
        Tile::Honour(Honour::Dragon(Dragon::Green)) => seq!['H'],
        Tile::Honour(Honour::Dragon(Dragon::Red)) => seq!['T'],
    }
}

/// The notation of `ts`, tile after tile.
pub open spec fn notation_of(ts: Seq<Tile>) -> Seq<char>
    decreases ts.len(),
{
    if ts.len() == 0 {
        Seq::empty()
    } else {
        tile_chars(ts[0]) + notation_of(ts.drop_first())
    }
}

proof fn lemma_digit_run_end_shift(p: Seq<char>, q: Seq<char>, i: int)
    requires
        0 <= i <= q.len(),
    ensures
        digit_run_end(p + q, p.len() + i) == p.len() + digit_run_end(q, i),
    decreases q.len() - i,
{
    if i < q.len() {
        assert((p + q)[p.len() + i] == q[i]);
        lemma_digit_run_end_shift(p, q, i + 1);
    }
}

proof fn lemma_parse_shift(p: Seq<char>, q: Seq<char>, i: int)
    requires
        0 <= i <= q.len(),
    ensures
        parse_tiles_from(p + q, p.len() + i) == parse_tiles_from(q, i),
    decreases q.len() - i,
{
    let s = p + q;
    let o = p.len() as int;
    if i < q.len() {
        assert(s[o + i] == q[i]);
        if digit_of(q[i]) is Some {
            lemma_digit_run_end_shift(p, q, i);
            lemma_digit_run_end(q, i);
            let j = digit_run_end(q, i);
            assert(has_zero(s, o + i, o + j) == has_zero(q, i, j)) by {
                if has_zero(s, o + i, o + j) {
                    let k = choose|k: int| o + i <= k < o + j && #[trigger] s[k] == '0';
                    assert(q[k - o] == '0');
                }
                if has_zero(q, i, j) {
                    let k = choose|k: int| i <= k < j && #[trigger] q[k] == '0';
                    assert(s[k + o] == '0');
                }
            }
            if j < q.len() {
                assert(s[o + j] == q[j]);
                lemma_parse_shift(p, q, j + 1);
                assert(run_tiles(s, o + i, o + j, s[o + j]) =~= run_tiles(q, i, j, q[j]));
            }
        } else if honour_of(q[i]) is Some {
            lemma_parse_shift(p, q, i + 1);
        }
    } else {
        assert(s.len() == o + i);
    }
}

/// Writing well-formed tiles in the notation and reading them back gives the
/// same tiles.
pub proof fn lemma_notation_parses_back(ts: Seq<Tile>)
    requires
        tiles_wf(ts),
    ensures
        parse_tiles(notation_of(ts)) == Ok::<Seq<Tile>, HandError>(ts),
    decreases ts.len(),
{
    if ts.len() == 0 {
        assert(parse_tiles_from(Seq::<char>::empty(), 0) == Ok::<Seq<Tile>, HandError>(Seq::<Tile>::empty()));
        assert(ts =~= Seq::<Tile>::empty());
    } else {
        let t = ts[0];
        let rest = ts.drop_first();
        assert(tiles_wf(rest)) by {
            assert forall|k: int| 0 <= k < rest.len() implies tile_wf(#[trigger] rest[k]) by {
                assert(rest[k] == ts[k + 1]);
            }
        }
        lemma_notation_parses_back(rest);
        let p = tile_chars(t);
        let q = notation_of(rest);
        let s = p + q;
        assert(notation_of(ts) == s);
        lemma_parse_shift(p, q, 0);
        assert(tile_wf(ts[0]));
        assert(ts =~= seq![t] + rest);
        if t is Honour {
            assert(s[0] == p[0]);
            assert(parse_tiles_from(s, 1) == parse_tiles_from(q, 0));
        } else {
            assert(s[0] == p[0]);
            assert(s[1] == p[1]);
            assert(digit_run_end(s, 2) == 2 || digit_run_end(s, 1) == 1);
            assert(digit_of(s[1]) is None);
            assert(digit_run_end(s, 1) == 1);
            assert(digit_run_end(s, 0) == 1);
            assert(!has_zero(s, 0, 1));
            assert(parse_tiles_from(s, 2) == parse_tiles_from(q, 0));
            assert(run_tiles(s, 0, 1, s[1]) =~= seq![t]);
        }
    }
}

/// Reading tiles, putting them in canonical order and writing them out again
/// gives notation that reads back as the same canonical tiles, which a
/// second sort leaves as they are.
pub proof fn lemma_notation_round_trip(s: Seq<char>)
    ensures
        parse_tiles(s) matches Ok(t) ==> ({
            let c = canonical(t);
            &&& parse_tiles(notation_of(c)) == Ok::<Seq<Tile>, HandError>(c)
            &&& canonical(c) == c
        }),
{
    lemma_parse_tiles_wf(s, 0);
    if let Ok(t) = parse_tiles(s) {
        let c = canonical(t);
        crate::groups::lemma_canonical_props(t);
        assert forall|q: int| 0 <= q < c.len() implies tile_wf(#[trigger] c[q]) by {
            broadcast use vstd::seq_lib::group_to_multiset_ensures;
            assert(c.to_multiset().count(c[q]) > 0);
            assert(t.to_multiset().count(c[q]) > 0);
            assert(t.contains(c[q]));
        }
        lemma_notation_parses_back(c);
        crate::groups::lemma_canonical_idempotent(t);
    }
}

fn digit_char_exec(r: u8) -> (c: char)
    ensures
        c == digit_char(r),
{
    if r == 1 {
        '1'
    } else if r == 2 {
        '2'
    } else if r == 3 {
        '3'
    } else if r == 4 {
        '4'
    } else if r == 5 {
        '5'
    } else if r == 6 {
        '6'
    } else if r == 7 {
        '7'
    } else if r == 8 {
        '8'
    } else {
        '9'
    }
}

proof fn lemma_notation_push(ts: Seq<Tile>, t: Tile)
    ensures
        notation_of(ts.push(t)) == notation_of(ts) + tile_chars(t),
    decreases ts.len(),
{
    if ts.len() == 0 {
        assert(ts.push(t).drop_first() =~= Seq::<Tile>::empty());
        assert(ts.push(t)[0] == t);
        assert(notation_of(Seq::<Tile>::empty()) == Seq::<char>::empty());
        assert(notation_of(ts) == Seq::<char>::empty());
        assert(notation_of(ts.push(t)) == tile_chars(t) + notation_of(Seq::<Tile>::empty()));
        assert(notation_of(ts.push(t)) =~= notation_of(ts) + tile_chars(t));
    } else {
        lemma_notation_push(ts.drop_first(), t);
        assert(ts.push(t).drop_first() =~= ts.drop_first().push(t));
        assert(notation_of(ts.push(t)) =~= notation_of(ts) + tile_chars(t));
    }
}

impl TilesNewType {
    /// The tiles written in the notation, one tile at a time.
    pub fn notation(&self) -> (r: Vec<char>)
        ensures
            r@ == notation_of(self.0@),
    {
        let v = &self.0;
        let mut out: Vec<char> = Vec::new();
        let mut i: usize = 0;
        while i < v.len()
            invariant
                i <= v.len(),
                out@ == notation_of(v@.subrange(0, i as int)),
            decreases v.len() - i,
        {
            let ghost before = out@;
            let t = v[i];
            match t {
                Tile::Character(n) => {
                    out.push(digit_char_exec(n));
                    out.push('m');
                },
                Tile::Circle(n) => {
                    out.push(digit_char_exec(n));
                    out.push('p');
                },
                Tile::Bamboo(n) => {
                    out.push(digit_char_exec(n));
                    out.push('s');
                },
                Tile::Honour(Honour::Wind(w)) => out.push(
                    match w {
                        Wind::East => 'E',
                        Wind::South => 'S',
                        Wind::West => 'W',
                        Wind::North => 'N',
                    },
                ),
                Tile::Honour(Honour::Dragon(d)) => out.push(
                    match d {
                        Dragon::White => 'D',
                        Dragon::Green => 'H',
                        Dragon::Red => 'T',
                    },
                ),
            }
            proof {
                lemma_notation_push(v@.subrange(0, i as int), t);
                assert(v@.subrange(0, i + 1) =~= v@.subrange(0, i as int).push(t));
                assert(out@ =~= before + tile_chars(t));
            }
            i += 1;
        }
        assert(v@.subrange(0, v.len() as int) =~= v@);
        out
    }
}

} // verus!
