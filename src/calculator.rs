//! The entry point: a hand in notation to its ranked scores.
use vstd::prelude::*;
use crate::tiles::Tile;
use crate::groups::{Hand, HandError};
use crate::parse::{ParsedHand, OpenView, decompose, open_tiles, nodes_view};
use crate::notation::{parse_hand, lemma_parse_hand_wf_result};
use crate::evaluate::{
    Evaluated, Evaluator, evaluated_view, sort_by_points, evaluations, flat_waits, situation_han,
    is_default_yaku_list, is_default_yakuman_list, node_bounded, lemma_decompose_bounded,
};
use crate::yaku::{SituationYaku, HandYaku, Yakuman};
use crate::parse::opens_view;

verus! {

/// Reads the hand `tiles_str` and scores every candidate with the default
/// catalogues and no winds, ranked by non-dealer points ascending (the last
/// is the best). A hand that does not read, or that forms no winning shape,
/// is an error.
pub fn calc(tiles_str: &str, situations: Vec<SituationYaku>, draw: bool) -> (r: Result<Vec<Evaluated>, HandError>)
    requires
        situation_han(situations@) + 512 <= u32::MAX,
    ensures
        r is Ok <==> parse_hand(tiles_str@) is Ok && decompose(parse_hand(tiles_str@)->Ok_0.0, parse_hand(tiles_str@)->Ok_0.1).len() > 0,
        r matches Err(e) ==> (parse_hand(tiles_str@) == Err::<(Seq<Tile>, Seq<OpenView>, Tile), HandError>(e))
            || (parse_hand(tiles_str@) is Ok && e == HandError::NoWinningShape),
        r matches Ok(all) ==> ({
            let h = parse_hand(tiles_str@)->Ok_0;
            exists|ym: Seq<Yakuman>, yk: Seq<HandYaku>|
                #![trigger is_default_yakuman_list(ym), is_default_yaku_list(yk, None, None)]
                is_default_yakuman_list(ym) && is_default_yaku_list(yk, None, None) && evaluated_view(all@)
                    == sort_by_points(
                    evaluations(
                        ym,
                        yk,
                        h.0 + open_tiles(h.1),
                        flat_waits(decompose(h.0, h.1), h.2, draw, None, None),
                        draw,
                        situations@,
                    ),
                )
        }),
{
    let hand = Hand::parse(tiles_str)?;
    proof {
        lemma_parse_hand_wf_result(tiles_str@);
        lemma_decompose_bounded(hand.tiles@, opens_view(hand.open_sets@));
    }
    let parsed = ParsedHand::new(&hand);
    if parsed.nodes.len() == 0 {
        return Err(HandError::NoWinningShape);
    }
    proof {
        assert forall|k: int| 0 <= k < parsed.nodes@.len() implies node_bounded((#[trigger] parsed.nodes@[k])@) by {
            assert(nodes_view(parsed.nodes@)[k] == parsed.nodes@[k]@);
        }
    }
    let evaluator = Evaluator::new(None, None, Vec::new(), Vec::new());
    let all = evaluator.evaluate_all(&parsed, draw, &situations);
    proof {
        let ym = evaluator.adopted_yakuman_list@;
        let yk = evaluator.adopted_yaku_list@;
        assert(is_default_yakuman_list(ym) && is_default_yaku_list(yk, None, None));
    }
    Ok(all)
}

} // verus!
