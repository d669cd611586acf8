//! The best five cards of a hand of five or more.

use vstd::prelude::*;
use combinations::Combinations;
use crate::card::Card;
use crate::classify::{category, settled, PokerHand};
use crate::error::CardError;
use crate::hand::{card_numbers, Hand};
use crate::sorting::{lemma_rearranged_contains, lemma_rearranged_len, numbers};

verus! {

/// What `combinations::Combinations::new(values, len)` yields, from its first
/// item to its last, for a `len` of at least 1 and below the length of
/// `values`.
pub uninterp spec fn combinations_of(values: Seq<usize>, len: usize) -> Seq<Seq<usize>>;

/// Collects all that the iterator `combinations::Combinations::new(values, len)`
/// yields. The constructor panics unless `len` is at least 1 and less than
/// the number of values, so only such calls are admitted. Of the result this
/// states what the crate's source shows: the iterator yields an item on its
/// first call, every item has `len` entries, and every entry is a clone of
/// one of the values.
#[verifier::external_body]
fn combinations(values: Vec<usize>, len: usize) -> (subsets: Vec<Vec<usize>>)
    requires
        1 <= len < values.len(),
    ensures
        subsets.deep_view() == combinations_of(values@, len),
        subsets.len() >= 1,
        forall|i: int| 0 <= i < subsets.len() ==> (#[trigger] subsets[i]).len() == len,
        forall|i: int, j: int|
            0 <= i < subsets.len() && 0 <= j < len ==> values@.contains(#[trigger] subsets[i][j]),
{
    Combinations::new(values, len).collect()
}

/// Card numbers as machine integers.
pub open spec fn machine_numbers(cards: Seq<nat>) -> Seq<usize> {
    cards.map_values(|v: nat| v as usize)
}

/// Rows of machine integers as rows of numbers.
pub open spec fn number_rows(rows: Seq<Seq<usize>>) -> Seq<Seq<nat>> {
    rows.map_values(|row: Seq<usize>| numbers(row))
}

/// The numbers of rows of cards.
pub open spec fn card_rows(rows: Seq<Vec<Card>>) -> Seq<Seq<nat>> {
    rows.map_values(|row: Vec<Card>| card_numbers(row@))
}

/// The picks of five cards that are tried for a hand, in the order in which
/// they are tried: none for fewer than five cards, the hand as it lies for
/// exactly five, and what the enumeration of five out of the cards yields
/// for more.
pub open spec fn five_card_picks(cards: Seq<nat>) -> Seq<Seq<nat>> {
    if cards.len() < 5 {
        Seq::empty()
    } else if cards.len() == 5 {
        seq![cards]
    } else {
        number_rows(combinations_of(machine_numbers(cards), 5))
    }
}

/// Every pick holds exactly five cards.
pub open spec fn all_five(picks: Seq<Seq<nat>>) -> bool {
    forall|i: int| 0 <= i < picks.len() ==> (#[trigger] picks[i]).len() == 5
}

/// Pick `i` is of a category that no pick exceeds and no earlier pick
/// reaches.
pub open spec fn is_first_best(picks: Seq<Seq<nat>>, i: int) -> bool {
    &&& 0 <= i < picks.len()
    &&& forall|j: int|
        0 <= j < picks.len() ==> category(#[trigger] picks[j]).strength() <= category(
            picks[i],
        ).strength()
    &&& forall|j: int|
        0 <= j < i ==> category(#[trigger] picks[j]).strength() < category(picks[i]).strength()
}

/// `r` is the outcome of the search among `picks` for the player `name`:
/// with no pick, or with a pick that does not hold five cards, the failure
/// `NotFullHand`; else the first pick of the strongest category, as a hand
/// of that player left as classifying leaves it, and its category.
pub open spec fn is_best_of(
    name: Seq<char>,
    picks: Seq<Seq<nat>>,
    r: Result<(Hand, PokerHand), CardError>,
) -> bool {
    match r {
        Ok((hand, found)) => {
            &&& picks.len() > 0
            &&& all_five(picks)
            &&& hand.name@ == name
            &&& exists|i: int|
                is_first_best(picks, i) && found == category(#[trigger] picks[i]) && settled(
                    picks[i],
                    hand@,
                )
        },
        Err(e) => e == CardError::NotFullHand && (picks.len() == 0 || !all_five(picks)),
    }
}

/// Classifies each pick in turn and returns the first of the strongest
/// category as a hand of the player called `name`, with its category.
pub fn best_of(name: &str, picks: &Vec<Vec<Card>>) -> (r: Result<(Hand, PokerHand), CardError>)
    ensures
        is_best_of(name@, card_rows(picks@), r),
{
    let ghost rows = card_rows(picks@);
    let n: usize = picks.len();
    if n == 0 {
        return Err(CardError::NotFullHand);
    }
    let mut best_hand = Hand::new(name);
    let mut best = PokerHand::HighCard;
    let ghost mut at: int = 0;
    let mut i: usize = 0;
    while i < n
        invariant
            i <= n,
            n == picks.len(),
            n > 0,
            rows == card_rows(picks@),
            forall|j: int| 0 <= j < i ==> (#[trigger] rows[j]).len() == 5,
            best_hand.name@ == name@,
            i > 0 ==> is_first_best(rows.take(i as int), at) && best == category(rows[at])
                && settled(rows[at], best_hand@),
        decreases n - i,
    {
        let pick = &picks[i];
        let mut test_hand = Hand::new(name);
        let m: usize = pick.len();
        let mut k: usize = 0;
        while k < m
            invariant
                k <= m,
                m == pick.len(),
                test_hand.name@ == name@,
                test_hand.hand@ == pick@.take(k as int),
            decreases m - k,
        {
            test_hand.deal_card(pick[k]);
            assert(pick@.take(k + 1) =~= pick@.take(k as int).push(pick[k as int]));
            k += 1;
        }
        assert(pick@.take(m as int) =~= pick@);
        assert(test_hand@ == rows[i as int]);
        let ph = match test_hand.find_poker_hand() {
            Ok(ph) => ph,
            Err(e) => {
                assert(rows[i as int].len() != 5);
                return Err(e);
            },
        };
        proof {
            let before = rows.take(i as int);
            let after = rows.take(i + 1);
            assert(forall|j: int| 0 <= j < i ==> after[j] == before[j]);
            assert(after[i as int] == rows[i as int]);
        }
        if i == 0 || ph.get_strength() > best.get_strength() {
            best = ph;
            best_hand = test_hand;
            proof {
                at = i as int;
            }
        }
        proof {
            let after = rows.take(i + 1);
            assert(after[at] == rows[at]);
            assert(is_first_best(after, at));
        }
        i += 1;
    }
    proof {
        assert(rows.take(n as int) =~= rows);
        assert(is_first_best(rows, at) && best == category(rows[at]) && settled(
            rows[at],
            best_hand@,
        ));
    }
    Ok((best_hand, best))
}

impl Hand {
    /// The picks of five cards that the search for the best five tries, in
    /// the order in which it tries them.
    pub fn five_card_subsets(&self) -> (picks: Vec<Vec<Card>>)
        ensures
            card_rows(picks@) == five_card_picks(self@),
            all_five(card_rows(picks@)),
            self@.len() >= 5 ==> picks.len() > 0,
            forall|i: int, j: int|
                0 <= i < picks.len() && 0 <= j < 5 ==> self@.contains(
                    #[trigger] card_rows(picks@)[i][j],
                ),
    {
        let n: usize = self.hand.len();
        let mut picks: Vec<Vec<Card>> = Vec::new();
        if n < 5 {
            assert(card_rows(picks@) =~= five_card_picks(self@));
            return picks;
        }
        if n == 5 {
            let mut whole: Vec<Card> = Vec::new();
            let mut k: usize = 0;
            while k < n
                invariant
                    k <= n,
                    n == self.hand.len(),
                    whole@ == self.hand@.take(k as int),
                decreases n - k,
            {
                whole.push(self.hand[k]);
                assert(self.hand@.take(k + 1) =~= self.hand@.take(k as int).push(
                    self.hand[k as int],
                ));
                k += 1;
            }
            assert(self.hand@.take(n as int) =~= self.hand@);
            picks.push(whole);
            assert(card_rows(picks@) =~= five_card_picks(self@));
            assert forall|i: int, j: int| 0 <= i < picks.len() && 0 <= j < 5 implies self@.contains(
                #[trigger] card_rows(picks@)[i][j],
            ) by {
                assert(card_rows(picks@)[i][j] == self@[j]);
            }
            return picks;
        }
        let mut values: Vec<usize> = Vec::new();
        let mut k: usize = 0;
        while k < n
            invariant
                k <= n,
                n == self.hand.len(),
                values.len() == k,
                forall|j: int| 0 <= j < k ==> values[j] == self@[j] && values[j] < 52,
            decreases n - k,
        {
            values.push(self.hand[k].get_value());
            k += 1;
        }
        assert(values@ =~= machine_numbers(self@));
        let ghost source = values@;
        let subsets = combinations(values, 5);
        let total: usize = subsets.len();
        let mut i: usize = 0;
        while i < total
            invariant
                i <= total,
                total == subsets.len(),
                picks.len() == i,
                n == self.hand.len(),
                source.len() == n,
                forall|j: int| 0 <= j < n ==> source[j] == self@[j] && source[j] < 52,
                forall|a: int| 0 <= a < subsets.len() ==> (#[trigger] subsets[a]).len() == 5,
                forall|a: int, b: int|
                    0 <= a < subsets.len() && 0 <= b < 5 ==> source.contains(
                        #[trigger] subsets[a][b],
                    ),
                forall|a: int| 0 <= a < i ==> card_numbers((#[trigger] picks[a])@) == numbers(subsets[a]@),
            decreases total - i,
        {
            let subset = &subsets[i];
            let mut pick: Vec<Card> = Vec::new();
            let mut j: usize = 0;
            while j < 5
                invariant
                    j <= 5,
                    subset.len() == 5,
                    0 <= i < subsets.len(),
                    subset == &subsets[i as int],
                    pick.len() == j,
                    forall|j: int| 0 <= j < source.len() ==> source[j] < 52,
                    forall|b: int| 0 <= b < 5 ==> source.contains(#[trigger] subsets[i as int][b]),
                    forall|b: int| 0 <= b < j ==> pick[b]@ == subset[b],
                decreases 5 - j,
            {
                let v: usize = subset[j];
                proof {
                    assert(source.contains(subsets[i as int][j as int]));
                    let w = choose|w: int| 0 <= w < source.len() && source[w] == v;
                    assert(source[w] < 52);
                }
                pick.push(Card::new(v));
                j += 1;
            }
            assert(card_numbers(pick@) =~= numbers(subset@));
            picks.push(pick);
            i += 1;
        }
        proof {
            let rows = card_rows(picks@);
            let named = number_rows(combinations_of(machine_numbers(self@), 5));
            assert(subsets.deep_view().len() == subsets.len());
            assert forall|a: int| 0 <= a < rows.len() implies rows[a] == named[a] by {
                assert(subsets.deep_view()[a] == subsets[a].deep_view());
                assert(subsets[a].deep_view() =~= subsets[a]@);
                assert(rows[a] == card_numbers(picks[a]@));
            }
            assert(rows =~= named);
            assert forall|a: int, b: int| 0 <= a < picks.len() && 0 <= b < 5 implies self@.contains(
                #[trigger] rows[a][b],
            ) by {
                assert(rows[a] == numbers(subsets[a]@));
                assert(source.contains(subsets[a][b]));
                let w = choose|w: int| 0 <= w < source.len() && source[w] == subsets[a][b];
                assert(self@[w] == rows[a][b]);
            }
        }
        picks
    }

    /// The best five cards of a hand of five or more, with their category:
    /// of the picks of five, the first of the strongest category. A hand of
    /// fewer than five cards is refused with `NotFullHand`.
    pub fn find_best_five(&self) -> (r: Result<(Hand, PokerHand), CardError>)
        ensures
            is_best_of(self.name@, five_card_picks(self@), r),
            self@.len() < 5 ==> r is Err,
            self@.len() >= 5 ==> r is Ok,
            r matches Ok((hand, found)) ==> hand@.len() == 5 && forall|j: int|
                0 <= j < 5 ==> self@.contains(#[trigger] hand@[j]),
    {
        let picks = self.five_card_subsets();
        let r = best_of(self.name.as_str(), &picks);
        proof {
            if r is Ok {
                let hand = r->Ok_0.0;
                let found = r->Ok_0.1;
                let rows = card_rows(picks@);
                let i = choose|i: int|
                    is_first_best(rows, i) && found == category(#[trigger] rows[i]) && settled(
                        rows[i],
                        hand@,
                    );
                lemma_rearranged_len(hand@, rows[i]);
                assert forall|j: int| 0 <= j < 5 implies self@.contains(#[trigger] hand@[j]) by {
                    assert(hand@.contains(hand@[j]));
                    lemma_rearranged_contains(hand@, rows[i], hand@[j]);
                    let w = choose|w: int| 0 <= w < rows[i].len() && rows[i][w] == hand@[j];
                    assert(self@.contains(rows[i][w]));
                }
            }
        }
        r
    }
}

} // verus!
