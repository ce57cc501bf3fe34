use mahjong::score::{Fu, Han, Score};

#[test]
fn tiers_by_han() {
    assert_eq!(Score::new(Han(3), Fu(40)), Score::Other { han: Han(3), fu: Fu(40) });
    assert_eq!(Score::new(Han(4), Fu(40)), Score::Mangan { han: Han(4) });
    assert_eq!(Score::new(Han(6), Fu(40)), Score::Haneman { han: Han(6) });
    assert_eq!(Score::new(Han(8), Fu(40)), Score::Baiman { han: Han(8) });
    assert_eq!(Score::new(Han(11), Fu(40)), Score::Sanbaiman { han: Han(11) });
    assert_eq!(Score::new(Han(13), Fu(40)), Score::KazoeYakuman { han: Han(13) });
    assert_eq!(Score::yakuman(1), Score::Yakuman);
    assert_eq!(Score::yakuman(2), Score::MultipleYakuman { multiple: 2 });
}

#[test]
fn named_tier_points() {
    assert_eq!(Score::Mangan { han: Han(5) }.score(false), 8000);
    assert_eq!(Score::Mangan { han: Han(5) }.score(true), 12000);
    assert_eq!(Score::Haneman { han: Han(6) }.score(false), 12000);
    assert_eq!(Score::Baiman { han: Han(9) }.score(true), 24000);
    assert_eq!(Score::Sanbaiman { han: Han(12) }.score(false), 24000);
    assert_eq!(Score::KazoeYakuman { han: Han(14) }.score(true), 48000);
    assert_eq!(Score::MultipleYakuman { multiple: 3 }.score(false), 108000);
}

#[test]
fn ordinary_points_round_fu_up() {
    assert_eq!(Score::Other { han: Han(1), fu: Fu(32) }.score(false), 4 * 40 * 8);
    assert_eq!(Score::Other { han: Han(3), fu: Fu(25) }.score(true), 6 * 30 * 32);
}

#[test]
fn more_han_never_scores_less() {
    for fu in [20u32, 25, 30, 40, 110] {
        let mut last = 0;
        for han in 0..4u32 {
            let p = Score::Other { han: Han(han), fu: Fu(fu) }.score(false);
            assert!(p >= last);
            last = p;
        }
    }
}

#[test]
fn mangan_beats_any_small_ordinary_hand() {
    assert!(Score::Other { han: Han(3), fu: Fu(60) }.score(false) < Score::Mangan { han: Han(4) }.score(false));
    assert!(Score::Other { han: Han(3), fu: Fu(60) }.score(true) < Score::Mangan { han: Han(4) }.score(true));
}

#[test]
fn payments_round_to_hundreds() {
    let s = Score::Other { han: Han(1), fu: Fu(30) };
    assert_eq!(s.ron_points(false), 1000);
    assert_eq!(s.draw_payments(false), (300, 500));
    assert_eq!(s.ron_points(true), 1500);
    assert_eq!(s.draw_payments(true), (500, 500));
    assert_eq!(Score::Mangan { han: Han(4) }.draw_payments(false), (2000, 4000));
}

#[test]
fn tier_names() {
    assert_eq!(Score::Mangan { han: Han(4) }.en_name(), "Mangan");
    assert_eq!(Score::Mangan { han: Han(4) }.jp_name(), "満貫");
    assert_eq!(Score::MultipleYakuman { multiple: 3 }.en_name(), "Triple Yakuman");
    assert_eq!(Score::MultipleYakuman { multiple: 5 }.jp_name(), "マルチ役満");
    assert_eq!(Score::Other { han: Han(1), fu: Fu(30) }.en_name(), "");
}
