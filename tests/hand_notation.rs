use mahjong::groups::{Hand, HandError, OpenSet};
use mahjong::notation::TilesNewType;
use mahjong::tiles::{Dragon, Tile, Wind};
use std::str::FromStr;

#[test]
fn sort_tiles() {
    let wanzu = Tile::Character(1);
    let pinzu = Tile::Circle(1);
    let souzu = Tile::Bamboo(1);
    let fonpai = Wind::East.tile();
    let sangenpai = Dragon::White.tile();

    let mut vec = vec![sangenpai.clone(), fonpai.clone(), souzu.clone(), pinzu.clone(), wanzu.clone()];
    vec.sort();

    assert_eq!(vec, vec![wanzu, pinzu, souzu, fonpai, sangenpai]);
}

#[test]
fn from_str() -> Result<(), HandError> {
    let hand = Hand::from_str("1s1s1s1s2s3s4s5s6s7s8s9s9s9s")?;
    let vec = vec![
        Tile::Bamboo(1),
        Tile::Bamboo(1),
        Tile::Bamboo(1),
        Tile::Bamboo(1),
        Tile::Bamboo(2),
        Tile::Bamboo(3),
        Tile::Bamboo(4),
        Tile::Bamboo(5),
        Tile::Bamboo(6),
        Tile::Bamboo(7),
        Tile::Bamboo(8),
        Tile::Bamboo(9),
        Tile::Bamboo(9),
        Tile::Bamboo(9)];
    assert_eq!(hand.tiles(), &vec);
    Ok(())
}

#[test]
fn from_str2() -> Result<(), HandError> {
    let hand = Hand::from_str("11112345678999s")?;
    let vec = vec![
        Tile::Bamboo(1),
        Tile::Bamboo(1),
        Tile::Bamboo(1),
        Tile::Bamboo(1),
        Tile::Bamboo(2),
        Tile::Bamboo(3),
        Tile::Bamboo(4),
        Tile::Bamboo(5),
        Tile::Bamboo(6),
        Tile::Bamboo(7),
        Tile::Bamboo(8),
        Tile::Bamboo(9),
        Tile::Bamboo(9),
        Tile::Bamboo(9)];
    assert_eq!(hand.tiles(), &vec);
    Ok(())
}

#[test]
fn from_str3() -> Result<(), HandError> {
    let hand = Hand::from_str("11112345678s東東東")?;
    let vec = vec![
        Tile::Bamboo(1),
        Tile::Bamboo(1),
        Tile::Bamboo(1),
        Tile::Bamboo(1),
        Tile::Bamboo(2),
        Tile::Bamboo(3),
        Tile::Bamboo(4),
        Tile::Bamboo(5),
        Tile::Bamboo(6),
        Tile::Bamboo(7),
        Tile::Bamboo(8),
        Wind::East.tile(),
        Wind::East.tile(),
        Wind::East.tile()];
    assert_eq!(hand.tiles(), &vec);
    Ok(())
}

#[test]
fn winning_tile_is_last_written() {
    let hand = Hand::parse("123m456p789s11s23p4p").unwrap();
    assert_eq!(hand.winning, Tile::Circle(4));
    assert_eq!(hand.tiles[0], Tile::Character(1));
    assert_eq!(hand.tiles[13], Tile::Bamboo(9));
}

#[test]
fn too_few_tiles() {
    assert!(matches!(Hand::parse("123m456p789s1s23p"), Err(HandError::TooFewTiles)));
}

#[test]
fn too_many_tiles() {
    assert!(matches!(Hand::parse("123m456p789s11s23p44p"), Err(HandError::TooManyTiles)));
}

#[test]
fn declared_melds_count_three_each() {
    let hand = Hand::parse("234m234p234s[234s]8p8p").unwrap();
    assert_eq!(hand.tiles.len(), 11);
    assert_eq!(hand.open_sets.len(), 1);
    assert!(matches!(&hand.open_sets[0], OpenSet::Chow(v) if v == &vec![Tile::Bamboo(2), Tile::Bamboo(3), Tile::Bamboo(4)]));
    assert_eq!(hand.winning, Tile::Circle(8));
}

#[test]
fn concealed_kong_is_read() {
    let hand = Hand::parse("東東東南南南西西西北北(発発発発)").unwrap();
    assert_eq!(hand.open_sets.len(), 1);
    assert!(matches!(&hand.open_sets[0], OpenSet::ConcealedKong(_)));
}

#[test]
fn zero_rank_is_rejected() {
    assert!(matches!(TilesNewType::parse("102m"), Err(HandError::InvalidNumber)));
}

#[test]
fn unclosed_run_is_incomplete() {
    assert!(matches!(TilesNewType::parse("123"), Err(HandError::Incomplete)));
    assert!(matches!(TilesNewType::parse("5"), Err(HandError::Incomplete)));
}

#[test]
fn unknown_character_is_rejected() {
    assert!(matches!(TilesNewType::parse("12x"), Err(HandError::InvalidCharacter)));
    assert!(matches!(TilesNewType::parse("Q"), Err(HandError::InvalidCharacter)));
}

#[test]
fn invalid_declared_meld() {
    assert!(matches!(OpenSet::parse("135s"), Err(HandError::InvalidMeld)));
    assert!(matches!(Hand::parse("111m222p333s[135s]5s5s"), Err(HandError::InvalidMeld)));
    assert!(matches!(Hand::parse("111m222p333s(1112s)5s5s"), Err(HandError::InvalidMeld)));
}

#[test]
fn declared_meld_is_sorted() {
    let m = OpenSet::parse("324p").unwrap();
    assert!(matches!(&m, OpenSet::Chow(v) if v == &vec![Tile::Circle(2), Tile::Circle(3), Tile::Circle(4)]));
    let k = OpenSet::parse("5555m").unwrap();
    assert!(matches!(k, OpenSet::Kong(_)));
}

#[test]
fn honour_markers() {
    let t = TilesNewType::parse("ESWNDHT東南西北白發発中PFC").unwrap().0;
    assert_eq!(t.len(), 18);
    assert_eq!(t[0], Wind::East.tile());
    assert_eq!(t[4], Dragon::White.tile());
    assert_eq!(t[5], Dragon::Green.tile());
    assert_eq!(t[6], Dragon::Red.tile());
    assert_eq!(t[10], Wind::North.tile());
    assert_eq!(t[13], Dragon::Green.tile());
    assert_eq!(t[16], Dragon::Green.tile());
    assert_eq!(t[17], Dragon::Red.tile());
}

#[test]
fn suit_markers_in_both_scripts() {
    let t = TilesNewType::parse("1萬2筒3索").unwrap().0;
    assert_eq!(t, vec![Tile::Character(1), Tile::Circle(2), Tile::Bamboo(3)]);
}
