//! The rules of the games that are played with the hands.

use vstd::prelude::*;
use crate::hand::{highest_rank, Hand};

verus! {

/// The cards of each of `players`, as numbers.
pub open spec fn hands_of(players: Seq<Hand>) -> Seq<Seq<nat>> {
    players.map_values(|p: Hand| p@)
}

/// Hand `w` wins at high card: it holds a card, no hand has a higher card,
/// and no earlier hand has one as high.
pub open spec fn wins_high_card(hands: Seq<Seq<nat>>, w: int) -> bool {
    &&& 0 <= w < hands.len()
    &&& highest_rank(hands[w]) > 0
    &&& forall|j: int|
        0 <= j < hands.len() ==> highest_rank(#[trigger] hands[j]) <= highest_rank(hands[w])
    &&& forall|j: int| 0 <= j < w ==> highest_rank(#[trigger] hands[j]) < highest_rank(hands[w])
}

/// Nobody holds a card.
pub open spec fn nobody_holds_a_card(hands: Seq<Seq<nat>>) -> bool {
    forall|j: int| 0 <= j < hands.len() ==> highest_rank(#[trigger] hands[j]) == 0
}

/// The name of the winner at high card: of the players with the highest card
/// the first. Where nobody holds a card, `nobody` wins.
pub fn hicard_winner(players: &Vec<Hand>) -> (winner: String)
    ensures
        nobody_holds_a_card(hands_of(players@)) ==> winner@ == "nobody"@,
        !nobody_holds_a_card(hands_of(players@)) ==> exists|w: int|
            wins_high_card(hands_of(players@), w) && winner@ == (#[trigger] players[w]).name@,
{
    let ghost hands = hands_of(players@);
    let mut winner = "nobody".to_owned();
    let mut top_card: usize = 0;
    let ghost mut at: int = 0;
    let n: usize = players.len();
    let mut i: usize = 0;
    while i < n
        invariant
            i <= n,
            n == players.len(),
            hands == hands_of(players@),
            forall|j: int| 0 <= j < i ==> highest_rank(#[trigger] hands[j]) <= top_card,
            top_card == 0 ==> winner@ == "nobody"@,
            top_card > 0 ==> 0 <= at < i && highest_rank(hands[at]) == top_card && winner@
                == players[at].name@ && forall|j: int|
                0 <= j < at ==> highest_rank(#[trigger] hands[j]) < top_card,
        decreases n - i,
    {
        let score: usize = players[i].hi_card();
        assert(hands[i as int] == players[i as int]@);
        if score > top_card {
            top_card = score;
            winner = players[i].get_name();
            proof {
                at = i as int;
            }
        }
        i += 1;
    }
    proof {
        if top_card > 0 {
            assert(wins_high_card(hands, at));
            assert(highest_rank(hands[at]) != 0);
        }
    }
    winner
}

} // verus!
