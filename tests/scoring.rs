use mahjong::calculator;
use mahjong::evaluate::{Evaluated, Evaluator, Wait, WaitKind};
use mahjong::groups::{Hand, HandError, Meld};
use mahjong::parse::ParsedHand;
use mahjong::score::{Fu, Han, Score};
use mahjong::tiles::{Dragon, Tile, Wind};
use mahjong::yaku::SituationYaku;

fn best(hand: &str, draw: bool) -> Evaluated {
    let mut all = calculator::calc(hand, Vec::new(), draw).unwrap();
    all.pop().unwrap()
}

fn names(e: &Evaluated) -> Vec<String> {
    e.yaku_list.clone()
}

#[test]
fn no_points_hand_on_discard() {
    let e = best("234m567p234s55p78s6s", false);
    assert_eq!(e.score, Score::Other { han: Han(2), fu: Fu(30) });
    assert_eq!(names(&e), vec!["タンヤオ / All simple".to_string(), "平和 / No-points hand".to_string()]);
    assert_eq!(e.score.score(false), 1920);
}

#[test]
fn no_points_hand_on_self_draw() {
    let e = best("234m567p234s55p78s6s", true);
    assert_eq!(e.score, Score::Other { han: Han(2), fu: Fu(20) });
    assert!(names(&e).contains(&"平和 / No-points hand".to_string()));
}

#[test]
fn seven_pairs_single_reading() {
    let hand = Hand::parse("2244m3366p5588s東東").unwrap();
    let parsed = ParsedHand::new(&hand);
    assert_eq!(parsed.nodes.len(), 1);
    assert_eq!(parsed.nodes[0].sets.len(), 7);
    assert!(parsed.nodes[0].sets.iter().all(|m| matches!(m, Meld::Pair(_))));
    let e = best("2244m3366p5588s東東", false);
    assert_eq!(e.score, Score::Other { han: Han(2), fu: Fu(25) });
    assert_eq!(names(&e), vec!["七対子 / Seven pairs".to_string()]);
}

#[test]
fn three_colour_triplets() {
    let e = best("111s111m111p[444s]55s", false);
    assert!(names(&e).contains(&"三色同刻 / Three colour triplets".to_string()));
    assert_eq!(e.score, Score::Haneman { han: Han(6) });
    assert_eq!(
        names(&e),
        vec![
            "三暗刻 / Three closed triplets".to_string(),
            "三色同刻 / Three colour triplets".to_string(),
            "対々和 / All triplet hand".to_string(),
        ]
    );
}

#[test]
fn thirteen_orphans_thirteen_wait() {
    let e = best("19m19p19s東南西北白発中1m", false);
    assert_eq!(e.score, Score::MultipleYakuman { multiple: 2 });
    assert_eq!(names(&e), vec!["国士無双一三面待ち / Thirteen orphans 13 wait".to_string()]);
    assert_eq!(e.score.score(false), 72000);
}

#[test]
fn thirteen_orphans_single_wait() {
    let e = best("1m19m19p19s東南西北白中発", false);
    assert_eq!(e.score, Score::Yakuman);
    assert_eq!(names(&e), vec!["国士無双 / Thirteen orphans".to_string()]);
}

#[test]
fn calc_too_few_and_too_many() {
    assert!(matches!(calculator::calc("123m456p789s1s23p", Vec::new(), false), Err(HandError::TooFewTiles)));
    assert!(matches!(calculator::calc("123m456p789s11s23p44p", Vec::new(), false), Err(HandError::TooManyTiles)));
}

#[test]
fn no_winning_shape() {
    assert!(matches!(calculator::calc("123m456p789s13s24p5p", Vec::new(), false), Err(HandError::NoWinningShape)));
}

#[test]
fn big_three_dragons_and_all_honors() {
    let e = best("白白白発発発中中中[西西西]東東", false);
    assert_eq!(e.score, Score::MultipleYakuman { multiple: 2 });
    assert_eq!(names(&e), vec!["大三元 / Big three dragons".to_string(), "字一色 / All honors".to_string()]);
}

#[test]
fn triple_yakuman_of_winds() {
    let e = best("東東東南南南西西西北北北発発", false);
    assert_eq!(e.score, Score::MultipleYakuman { multiple: 3 });
    assert_eq!(
        names(&e),
        vec![
            "四暗刻 / Four concealed triplets".to_string(),
            "大四喜 / Big four dragons".to_string(),
            "字一色 / All honors".to_string(),
        ]
    );
    assert_eq!(e.score.score(true), 144000);
}

#[test]
fn nine_gates() {
    let e = best("11112345678999s", false);
    assert_eq!(e.score, Score::Yakuman);
    assert_eq!(names(&e), vec!["九蓮宝燈 / Nine gates".to_string()]);
}

#[test]
fn every_reading_holds_fourteen_tiles() {
    for hand in ["11112345678999s", "234m234p234s[234s]8p8p", "2244m3366p5588s東東", "19m19p19s東南西北白発中1m"] {
        let h = Hand::parse(hand).unwrap();
        let parsed = ParsedHand::new(&h);
        assert!(!parsed.nodes.is_empty());
        for node in &parsed.nodes {
            let concealed: usize = node.sets.iter().map(|m| m.tiles().len()).sum();
            assert!(node.remaining.is_empty());
            assert_eq!(concealed + 3 * node.open_sets.len(), 14);
        }
    }
}

#[test]
fn ranking_is_ascending() {
    let all = calculator::calc("11112345678999s", Vec::new(), false).unwrap();
    assert!(all.len() > 1);
    for w in all.windows(2) {
        assert!(w[0].score.score(false) <= w[1].score.score(false));
    }
}

#[test]
fn situational_han_is_added() {
    let e = calculator::calc("234m567p234s55p78s6s", vec![SituationYaku::ready(), SituationYaku::one_shot()], false)
        .unwrap()
        .pop()
        .unwrap();
    assert_eq!(e.score, Score::Mangan { han: Han(4) });
    assert_eq!(e.yaku_list[0], "立直 / Ready hand");
    assert_eq!(e.yaku_list[1], "一発 / One-shot");
}

#[test]
fn wait_classification() {
    let hand = Hand::parse("123m567p789s11s12p3p").unwrap();
    let parsed = ParsedHand::new(&hand);
    let ws = Wait::from(&parsed.nodes[0], hand.winning, false, None, None);
    assert_eq!(ws.len(), 1);
    assert_eq!(ws[0].kind(), WaitKind::Penchan);
    assert_eq!(ws[0].fu(), Fu(32));
    let hand = Hand::parse("123m567p789s11s13p2p").unwrap();
    let parsed = ParsedHand::new(&hand);
    let ws = Wait::from(&parsed.nodes[0], hand.winning, false, None, None);
    assert_eq!(ws[0].kind(), WaitKind::Kanchan);
    assert_eq!(ws[0].fu(), Fu(32));
}

#[test]
fn valuable_pair_adds_fu() {
    let hand = Hand::parse("123m456p789s234s白白").unwrap();
    let parsed = ParsedHand::new(&hand);
    let ws = Wait::from(&parsed.nodes[0], hand.winning, false, None, None);
    assert_eq!(ws[0].kind(), WaitKind::Tanki);
    assert_eq!(ws[0].fu(), Fu(34));
    let ws = Wait::from(&parsed.nodes[0], hand.winning, true, None, None);
    assert_eq!(ws[0].fu(), Fu(26));
}

#[test]
fn honor_tiles_count_seat_and_round_wind() {
    let evaluator = Evaluator::new(Some(Wind::East.tile()), Some(Wind::East.tile()), Vec::new(), Vec::new());
    let best = evaluator.evaluate_str("東東東123m456p789s5p5p", false, &Vec::new()).unwrap().unwrap();
    assert!(best.yaku_list.contains(&"役牌 / Honor tiles".to_string()));
    assert!(best.yaku_list.contains(&"一気通貫 / Straight".to_string()) == false);
    let plain = Evaluator::new(None, None, Vec::new(), Vec::new());
    assert!(plain.evaluate_str("東東東123m456p789s5p5p", false, &Vec::new()).unwrap().unwrap().yaku_list.is_empty());
}

#[test]
fn straight_and_flush() {
    let e = best("123456789s11s234s", false);
    assert!(e.yaku_list.contains(&"一気通貫 / Straight".to_string()));
    assert!(e.yaku_list.contains(&"清一色 / Flush".to_string()));
    assert!(!e.yaku_list.contains(&"混一色 / Half flush".to_string()));
}

#[test]
fn half_flush_with_honours() {
    let e = best("123456789s東東東南南", false);
    assert!(e.yaku_list.contains(&"混一色 / Half flush".to_string()));
    assert!(!e.yaku_list.contains(&"清一色 / Flush".to_string()));
}

#[test]
fn evaluate_str_reports_parse_errors() {
    let ev = Evaluator::new(None, None, Vec::new(), Vec::new());
    assert!(matches!(ev.evaluate_str("12", false, &Vec::new()), Err(HandError::Incomplete)));
    assert!(matches!(ev.evaluate_all_str("123m", false, &Vec::new()), Err(HandError::TooFewTiles)));
}

#[test]
fn dragon_tile_helpers() {
    assert_eq!(Dragon::Red.tile(), Tile::Honour(mahjong::tiles::Honour::Dragon(Dragon::Red)));
    assert_eq!(Tile::Bamboo(8).next(), Some(Tile::Bamboo(9)));
    assert_eq!(Tile::Bamboo(9).next(), None);
    assert_eq!(Wind::North.tile().next(), None);
    assert!(Tile::Circle(9).is_terminal());
    assert!(Wind::West.tile().is_yaotyu());
    assert!(Tile::Character(5).is_simple());
    assert!(!Wind::West.tile().is_suits());
}
