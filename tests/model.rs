use mahjong::groups::{copy_tiles, sorted_tiles, HandError, Meld, MeldKind, Sets, Tiles};
use mahjong::notation::TilesNewType;
use mahjong::parse::{Node, Root};
use mahjong::groups::Hand;
use mahjong::score::{Fu, Han};
use mahjong::yaku::{SituationYaku, YakuAttributes};
use mahjong::tiles::{Dragon, Tile, Wind};

#[test]
fn notation_round_trip() {
    let parsed = TilesNewType::parse("中9s1m東5p5p白1m").unwrap();
    let sorted = TilesNewType(sorted_tiles(&parsed.0));
    let text: String = sorted.notation().into_iter().collect();
    assert_eq!(text, "1m1m5p5p9sEDT");
    let again = TilesNewType::parse(&text).unwrap();
    assert_eq!(again.0, sorted.0);
    assert_eq!(sorted_tiles(&again.0), again.0);
}

#[test]
fn glyphs() {
    assert_eq!(Tile::Character(1).glyph(), '🀇');
    assert_eq!(Tile::Circle(9).glyph(), '🀡');
    assert_eq!(Tile::Bamboo(5).glyph(), '🀔');
    assert_eq!(Tile::Bamboo(12).glyph(), '🀪');
    assert_eq!(Wind::South.tile().glyph(), '🀁');
    assert_eq!(Dragon::Red.tile().glyph(), '🀄');
}

#[test]
fn meld_shapes() {
    assert!(matches!(Meld::new(vec![Tile::Circle(3), Tile::Circle(4), Tile::Circle(5)]), Ok(Meld::Chow(_))));
    assert!(matches!(Meld::new(vec![Tile::Circle(3), Tile::Circle(3)]), Ok(Meld::Pair(_))));
    assert!(matches!(Meld::new(vec![Tile::Circle(3), Tile::Circle(3), Tile::Circle(3)]), Ok(Meld::Pung(_))));
    assert!(matches!(Meld::new(vec![Tile::Circle(3), Tile::Circle(5), Tile::Circle(4)]), Err(HandError::InvalidMeld)));
    assert!(matches!(Meld::new(vec![Wind::East.tile(), Wind::South.tile(), Wind::West.tile()]), Err(HandError::InvalidMeld)));
}

#[test]
fn meld_fu_and_predicates() {
    let pung = Meld::new(vec![Tile::Circle(9), Tile::Circle(9), Tile::Circle(9)]).unwrap();
    assert_eq!(pung.fu(), Fu(8));
    let simple = Meld::new(vec![Tile::Circle(5), Tile::Circle(5), Tile::Circle(5)]).unwrap();
    assert_eq!(simple.fu(), Fu(4));
    assert_eq!(pung.kind(), MeldKind::Pung);
    assert!(pung.all_circle());
    assert!(!pung.all_bamboo());
    assert!(pung.all_terminal());
    assert_eq!(pung.count(&Tile::Circle(9)), 3);
    assert_eq!(pung.sum_tile(), Some(Tile::Circle(27)));
    let run = vec![Tile::Bamboo(1), Tile::Bamboo(2), Tile::Bamboo(3)];
    assert!(run.is_sequential());
    assert!(run.contains_terminal());
    assert!(!run.is_flat());
    assert_eq!(run.sum_tile(), Some(Tile::Bamboo(6)));
    assert_eq!(copy_tiles(&run), run);
}

#[test]
fn pair_candidates_and_search() {
    let hand = Hand::parse("11123455567899m").unwrap();
    let root = Root::new(&hand);
    assert_eq!(root.nodes.len(), 3);
    let leaves: Vec<Node> = root.search_leafs();
    assert!(!leaves.is_empty());
    for leaf in &leaves {
        assert!(matches!(leaf.sets[0], Meld::Pair(_)));
        assert_eq!(leaf.sets.len(), 5);
    }
}

#[test]
fn canonical_order() {
    let v = vec![Dragon::Red.tile(), Tile::Bamboo(2), Wind::North.tile(), Tile::Character(9), Tile::Circle(1)];
    assert_eq!(
        sorted_tiles(&v),
        vec![Tile::Character(9), Tile::Circle(1), Tile::Bamboo(2), Wind::North.tile(), Dragon::Red.tile()]
    );
}

#[test]
fn marker_tables() {
    assert_eq!(Tile::characters_markers(), vec!['m', '萬']);
    assert_eq!(Tile::circles_markers(), vec!['p', '筒']);
    assert_eq!(Tile::bamboos_markers(), vec!['s', '索']);
    assert_eq!(Tile::east_markers(), vec!['E', '東']);
    assert_eq!(Tile::south_markers(), vec!['S', '南']);
    assert_eq!(Tile::west_markers(), vec!['W', '西']);
    assert_eq!(Tile::north_markers(), vec!['N', '北']);
    assert_eq!(Tile::white_markers(), vec!['D', 'P', '白']);
    assert_eq!(Tile::green_markers(), vec!['H', 'F', '發', '発']);
    assert_eq!(Tile::red_markers(), vec!['T', 'C', '中']);
    for c in Tile::green_markers() {
        let t = TilesNewType::parse(&c.to_string()).unwrap().0;
        assert_eq!(t, vec![Dragon::Green.tile()]);
    }
}

#[test]
fn situational_bonuses() {
    assert_eq!(SituationYaku::nagashi_mangan().han_value(), Han(4));
    assert_eq!(SituationYaku::double_ready().han_value(), Han(2));
    assert_eq!(SituationYaku::self_pick().name(), "門前清自摸和 / Self-pick");
    assert_eq!(SituationYaku::last_tile_from_the_wall().han_value(), Han(1));
    assert_eq!(SituationYaku::last_discard().name(), "河底撈魚 / Last discard");
    assert_eq!(SituationYaku::dead_wall_draw().name(), "嶺上開花 / Dead wall draw");
    assert_eq!(SituationYaku::robbing_a_quad().han_value(), Han(1));
    let custom = SituationYaku::new("Dora", 3);
    assert_eq!(custom.name(), "Dora");
    assert_eq!(custom.han_value(), Han(3));
}
