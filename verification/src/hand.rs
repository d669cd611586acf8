//! A player's hand: an owner's name and the cards dealt to it, in the order
//! in which they were dealt unless the hand has been sorted.

use vstd::prelude::*;
use crate::card::{card_text, id_value, lemma_card_by_number, rank_number, value_from_id, Card};
use crate::error::CardError;
use crate::sorting::{
    ascending, lemma_ascending_unique, lemma_rearranged_contains, lemma_rearranged_len, numbers,
    rearranged, sort_ascending,
};

verus! {

/// The numbers of a row of cards, in the same order.
pub open spec fn card_numbers(cards: Seq<Card>) -> Seq<nat> {
    cards.map_values(|c: Card| c@)
}

/// Every number in `cards` is the number of a card.
pub open spec fn all_in_deck(cards: Seq<nat>) -> bool {
    forall|i: int| 0 <= i < cards.len() ==> cards[i] < 52
}

/// `i` is the first place in `cards` that holds the card numbered `v`.
pub open spec fn first_at(cards: Seq<nat>, v: nat, i: int) -> bool {
    &&& 0 <= i < cards.len()
    &&& cards[i] == v
    &&& forall|j: int| 0 <= j < i ==> cards[j] != v
}

/// The highest rank number among `cards`, or 0 where there is no card.
pub open spec fn highest_rank(cards: Seq<nat>) -> nat
    decreases cards.len(),
{
    if cards.len() == 0 {
        0
    } else {
        let earlier = highest_rank(cards.drop_last());
        let last = rank_number(cards.last());
        if last > earlier {
            last
        } else {
            earlier
        }
    }
}

/// `n` is the highest rank number among `cards`, or 0 where there is no card.
pub open spec fn is_highest_rank(cards: Seq<nat>, n: nat) -> bool {
    if cards.len() == 0 {
        n == 0
    } else {
        &&& exists|i: int| 0 <= i < cards.len() && rank_number(cards[i]) == n
        &&& forall|i: int| 0 <= i < cards.len() ==> rank_number(cards[i]) <= n
    }
}

/// How a row of cards is written out: a line for each, a hyphen before it.
pub open spec fn cards_text(cards: Seq<nat>) -> Seq<char>
    decreases cards.len(),
{
    if cards.len() == 0 {
        Seq::empty()
    } else {
        cards_text(cards.drop_last()) + "-"@ + card_text(cards.last()) + "\n"@
    }
}

/// Rows of cards with the same numbers are the same rows.
pub proof fn lemma_cards_by_number(x: Seq<Card>, y: Seq<Card>)
    requires
        card_numbers(x) == card_numbers(y),
    ensures
        x == y,
{
    assert(x.len() == card_numbers(x).len());
    assert(y.len() == card_numbers(y).len());
    assert forall|i: int| 0 <= i < x.len() implies x[i] == y[i] by {
        assert(card_numbers(x)[i] == x[i]@);
        assert(card_numbers(y)[i] == y[i]@);
        lemma_card_by_number(x[i], y[i]);
    }
    assert(x =~= y);
}

/// Sorting a sorted hand changes nothing: where `once` is what sorting leaves
/// of some cards and `twice` is what sorting leaves of `once`, the two are
/// the same.
pub proof fn lemma_sort_twice(once: Seq<Card>, twice: Seq<Card>)
    requires
        ascending(card_numbers(once)),
        ascending(card_numbers(twice)),
        rearranged(card_numbers(twice), card_numbers(once)),
    ensures
        twice == once,
{
    lemma_ascending_unique(card_numbers(twice), card_numbers(once));
    lemma_cards_by_number(twice, once);
}

/// The cards of one player.
pub struct Hand {
    /// The player's name.
    pub name: String,
    /// The cards held, first dealt first.
    pub hand: Vec<Card>,
}

impl View for Hand {
    type V = Seq<nat>;

    /// The numbers of the cards held, first dealt first.
    open spec fn view(&self) -> Seq<nat> {
        card_numbers(self.hand@)
    }
}

impl Hand {
    /// An empty hand for the player called `name`.
    pub fn new(name: &str) -> (h: Hand)
        ensures
            h.name@ == name@,
            h.hand@ == Seq::<Card>::empty(),
    {
        let hand = Vec::new();
        let name = name.to_owned();
        Self { name, hand }
    }

    /// The player's name.
    pub fn get_name(&self) -> (name: String)
        ensures
            name@ == self.name@,
    {
        self.name.clone()
    }

    /// Puts `card` behind the cards already held.
    pub fn deal_card(&mut self, card: Card)
        ensures
            final(self).hand@ == old(self).hand@.push(card),
            final(self).name == old(self).name,
    {
        self.hand.push(card);
    }

    /// Sorts the cards by their numbers: by suit first, by rank within a suit.
    pub fn sort_by_suit(&mut self)
        ensures
            ascending(final(self)@),
            rearranged(final(self)@, old(self)@),
            all_in_deck(final(self)@),
            final(self).name == old(self).name,
    {
        let n: usize = self.hand.len();
        let mut values: Vec<usize> = Vec::new();
        let mut i: usize = 0;
        while i < n
            invariant
                i <= n,
                n == self.hand.len(),
                values.len() == i,
                forall|k: int| 0 <= k < i ==> values[k] == self.hand[k]@ && values[k] < 52,
            decreases n - i,
        {
            values.push(self.hand[i].get_value());
            i += 1;
        }
        assert(numbers(values@) =~= self@);
        sort_ascending(&mut values);
        proof {
            let sorted = numbers(values@);
            assert forall|k: int| 0 <= k < values.len() implies values[k] < 52 by {
                assert(sorted[k] == values[k]);
                assert(sorted.contains(sorted[k]));
                lemma_rearranged_contains(sorted, self@, sorted[k]);
                let j = choose|j: int| 0 <= j < self@.len() && self@[j] == sorted[k];
                assert(self@[j] == self.hand[j]@);
            }
            lemma_rearranged_len(sorted, self@);
        }
        let mut cards: Vec<Card> = Vec::new();
        let mut j: usize = 0;
        while j < n
            invariant
                j <= n,
                n == values.len(),
                cards.len() == j,
                forall|k: int| 0 <= k < n ==> values[k] < 52,
                forall|k: int| 0 <= k < j ==> cards[k]@ == values[k],
            decreases n - j,
        {
            cards.push(Card::new(values[j]));
            j += 1;
        }
        assert(card_numbers(cards@) =~= numbers(values@));
        self.hand = cards;
    }

    /// Takes the card that `id` names out of the hand and returns it. Where
    /// the hand holds it more than once, the first one leaves; the cards that
    /// stay keep their order.
    pub fn discard(&mut self, id: &str) -> (r: Result<Card, CardError>)
        ensures
            final(self).name == old(self).name,
            match id_value(id@) {
                None => r == Err::<Card, CardError>(CardError::NotCardId) && final(self).hand@ == old(
                    self,
                ).hand@,
                Some(v) => if old(self)@.contains(v) {
                    exists|i: int|
                        first_at(old(self)@, v, i) && r == Ok::<Card, CardError>(old(self).hand@[i])
                            && final(self).hand@ == old(self).hand@.remove(i)
                } else {
                    r == Err::<Card, CardError>(CardError::CardNotFound) && final(self).hand@ == old(
                        self,
                    ).hand@
                },
            },
    {
        let wanted: usize = match value_from_id(id) {
            Ok(value) => value,
            Err(e) => {
                return Err(e);
            },
        };
        let n: usize = self.hand.len();
        let mut i: usize = 0;
        while i < n
            invariant
                i <= n,
                n == self.hand.len(),
                *self == *old(self),
                id_value(id@) == Some(wanted as nat),
                forall|j: int| 0 <= j < i ==> self@[j] != wanted,
            decreases n - i,
        {
            if self.hand[i].get_value() == wanted {
                assert(self@[i as int] == wanted);
                assert(first_at(self@, wanted as nat, i as int));
                let card = self.hand.remove(i);
                return Ok(card);
            }
            i += 1;
        }
        Err(CardError::CardNotFound)
    }

    /// The hand written out: the player's name on a line, then a line for
    /// each card.
    pub fn to_string(&self) -> (text: String)
        ensures
            text@ == self.name@ + "\n"@ + cards_text(self@),
    {
        let mut text = self.name.clone();
        text.append("\n");
        let ghost head = text@;
        let n: usize = self.hand.len();
        let mut i: usize = 0;
        assert(self@.take(0) =~= Seq::<nat>::empty());
        while i < n
            invariant
                i <= n,
                n == self.hand.len(),
                head == self.name@ + "\n"@,
                text@ == head + cards_text(self@.take(i as int)),
            decreases n - i,
        {
            let line = self.hand[i].to_string();
            proof {
                let next = self@.take(i + 1);
                assert(next.drop_last() =~= self@.take(i as int));
                assert(next.last() == self@[i as int]);
                assert(cards_text(next) == cards_text(self@.take(i as int)) + "-"@ + card_text(
                    self@[i as int],
                ) + "\n"@);
            }
            text.append("-");
            text.append(line.as_str());
            text.append("\n");
            assert(text@ =~= head + cards_text(self@.take(i + 1)));
            i += 1;
        }
        assert(self@.take(n as int) =~= self@);
        text
    }

    /// The highest rank number in the hand: 14 for an ace, 0 for no card.
    pub fn hi_card(&self) -> (n: usize)
        ensures
            n == highest_rank(self@),
            is_highest_rank(self@, n as nat),
    {
        let mut hi_card: usize = 0;
        let len: usize = self.hand.len();
        let mut i: usize = 0;
        while i < len
            invariant
                i <= len,
                len == self.hand.len(),
                hi_card == highest_rank(self@.take(i as int)),
                is_highest_rank(self@.take(i as int), hi_card as nat),
            decreases len - i,
        {
            let rank: usize = self.hand[i].get_rank_usize();
            proof {
                let before = self@.take(i as int);
                let after = self@.take(i + 1);
                assert(after.drop_last() =~= before);
                assert(after[i as int] == self@[i as int]);
                assert(forall|k: int| 0 <= k < i ==> after[k] == before[k]);
                if i > 0 {
                    let w = choose|w: int|
                        0 <= w < before.len() && rank_number(before[w]) == hi_card;
                    assert(after[w] == before[w]);
                }
            }
            if rank > hi_card {
                hi_card = rank;
            }
            i += 1;
        }
        assert(self@.take(len as int) =~= self@);
        hi_card
    }
}

} // verus!
