//! The deck: the cards that have not been dealt yet.

use std::collections::HashMap;
use vstd::prelude::*;
use crate::card::{Card, FULLDECK};

verus! {

/// The numbers of all 52 cards.
pub open spec fn full_deck() -> Set<nat> {
    Set::new(|v: nat| v < 52)
}

/// `v` is in `cards`, and no lower number is.
pub open spec fn is_lowest(cards: Set<nat>, v: nat) -> bool {
    cards.contains(v) && forall|w: nat| w < v ==> !cards.contains(w)
}

/// What is left of the deck `start` when the cards numbered `taken` have
/// left it one after another.
pub open spec fn left_after(start: Set<nat>, taken: Seq<nat>) -> Set<nat>
    decreases taken.len(),
{
    if taken.len() == 0 {
        start
    } else {
        left_after(start, taken.drop_last()).remove(taken.last())
    }
}

/// Each of `taken` was in the deck when its turn came to leave it.
pub open spec fn taken_in_turn(start: Set<nat>, taken: Seq<nat>) -> bool {
    forall|i: int|
        0 <= i < taken.len() ==> left_after(start, taken.take(i)).contains(#[trigger] taken[i])
}

/// The numbers below `n` are `n` in number.
proof fn lemma_count_below(n: nat)
    ensures
        Set::new(|v: nat| v < n).finite(),
        Set::new(|v: nat| v < n).len() == n,
    decreases n,
{
    if n == 0 {
        assert(Set::new(|v: nat| v < n) =~= Set::<nat>::empty());
    } else {
        let m = (n - 1) as nat;
        lemma_count_below(m);
        assert(Set::new(|v: nat| v < n) =~= Set::new(|v: nat| v < m).insert(m));
    }
}

/// A card is left exactly if it was there at the start and was not taken.
pub proof fn lemma_left_after_holds(start: Set<nat>, taken: Seq<nat>, v: nat)
    ensures
        left_after(start, taken).contains(v) <==> start.contains(v) && !taken.contains(v),
    decreases taken.len(),
{
    if taken.len() > 0 {
        let earlier = taken.drop_last();
        lemma_left_after_holds(start, earlier, v);
        if earlier.contains(v) {
            let i = choose|i: int| 0 <= i < earlier.len() && earlier[i] == v;
            assert(taken[i] == v);
        }
        if taken.contains(v) && v != taken.last() {
            let i = choose|i: int| 0 <= i < taken.len() && taken[i] == v;
            assert(earlier[i] == v);
        }
    }
}

/// Cards that were taken in turn were taken in turn up to any point.
proof fn lemma_taken_in_turn_earlier(start: Set<nat>, taken: Seq<nat>)
    requires
        taken_in_turn(start, taken),
        taken.len() > 0,
    ensures
        taken_in_turn(start, taken.drop_last()),
        left_after(start, taken.drop_last()).contains(taken.last()),
{
    let earlier = taken.drop_last();
    assert(earlier =~= taken.take(taken.len() - 1));
    assert(left_after(start, taken.take(taken.len() - 1)).contains(taken[taken.len() - 1]));
    assert forall|i: int| 0 <= i < earlier.len() implies left_after(
        start,
        earlier.take(i),
    ).contains(#[trigger] earlier[i]) by {
        assert(earlier.take(i) =~= taken.take(i));
        assert(earlier[i] == taken[i]);
    }
}

/// As many cards are left as were there at the start, less those taken.
proof fn lemma_left_after_count(start: Set<nat>, taken: Seq<nat>)
    requires
        start.finite(),
        taken_in_turn(start, taken),
    ensures
        left_after(start, taken).finite(),
        left_after(start, taken).len() + taken.len() == start.len(),
    decreases taken.len(),
{
    if taken.len() > 0 {
        lemma_taken_in_turn_earlier(start, taken);
        lemma_left_after_count(start, taken.drop_last());
    }
}

/// Cards that leave a full deck one after another are all different, each
/// is one of the 52, and 52 less their number stay behind: so the deck is
/// empty after 52 cards and not before, and nothing can be taken after that.
pub proof fn lemma_deck_drains(taken: Seq<nat>)
    requires
        taken_in_turn(full_deck(), taken),
    ensures
        taken.no_duplicates(),
        forall|i: int| 0 <= i < taken.len() ==> taken[i] < 52,
        left_after(full_deck(), taken).len() + taken.len() == 52,
        left_after(full_deck(), taken) == Set::<nat>::empty() <==> taken.len() == 52,
{
    lemma_count_below(52);
    lemma_left_after_count(full_deck(), taken);
    let rest = left_after(full_deck(), taken);
    assert forall|i: int| 0 <= i < taken.len() implies taken[i] < 52 by {
        lemma_left_after_holds(full_deck(), taken.take(i), taken[i]);
    }
    assert forall|i: int, j: int| 0 <= i < j < taken.len() implies taken[i] != taken[j] by {
        lemma_left_after_holds(full_deck(), taken.take(j), taken[j]);
        assert(taken.take(j)[i] == taken[i]);
    }
    if rest.len() == 0 {
        assert(rest =~= Set::<nat>::empty());
    }
}

/// A deck of cards. It starts with one of each of the 52 cards, and a card
/// that was taken never comes back.
pub struct Deck {
    deck: HashMap<usize, Card>,
}

impl View for Deck {
    type V = Set<nat>;

    /// The numbers of the cards that are still in the deck.
    closed spec fn view(&self) -> Set<nat> {
        Set::new(|v: nat| v < 52 && self.deck@.contains_key(v as usize))
    }
}

impl Deck {
    /// Every card lies under its own number.
    pub closed spec fn wf(&self) -> bool {
        forall|k: usize| #[trigger]
            self.deck@.contains_key(k) ==> k < 52 && self.deck@[k]@ == k as nat
    }

    /// A deck of all 52 cards.
    pub fn new() -> (d: Deck)
        ensures
            d.wf(),
            d@ == full_deck(),
    {
        let mut deck: HashMap<usize, Card> = HashMap::new();
        let mut i: usize = 0;
        while i < FULLDECK
            invariant
                i <= 52,
                forall|k: usize| #[trigger] deck@.contains_key(k) <==> k < i,
                forall|k: usize| #[trigger] deck@.contains_key(k) ==> deck@[k]@ == k as nat,
            decreases 52 - i,
        {
            deck.insert(i, Card::new(i));
            i += 1;
        }
        let d = Self { deck };
        assert(d@ =~= full_deck());
        d
    }

    /// Takes the card numbered `value` out of the deck, if it is still there.
    pub fn get_card(&mut self, value: usize) -> (r: Option<Card>)
        requires
            old(self).wf(),
        ensures
            final(self).wf(),
            match r {
                Some(card) => old(self)@.contains(value as nat) && card@ == value && final(self)@
                    == old(self)@.remove(value as nat),
                None => !old(self)@.contains(value as nat) && final(self)@ == old(self)@,
            },
    {
        let r = self.deck.remove(&value);
        proof {
            match r {
                Some(card) => {
                    assert(self@ =~= old(self)@.remove(value as nat));
                },
                None => {
                    assert(self@ =~= old(self)@);
                },
            }
        }
        r
    }

    /// Takes the card with the lowest number out of the deck. Only an empty
    /// deck gives none.
    pub fn get_top_card(&mut self) -> (r: Option<Card>)
        requires
            old(self).wf(),
        ensures
            final(self).wf(),
            match r {
                Some(card) => is_lowest(old(self)@, card@) && final(self)@ == old(self)@.remove(
                    card@,
                ),
                None => old(self)@ == Set::<nat>::empty() && final(self)@ == old(self)@,
            },
    {
        match self.get_top_card_key() {
            Some(key) => self.get_card(key),
            None => None,
        }
    }

    /// The lowest number of a card in the deck, where there is one.
    fn get_top_card_key(&self) -> (r: Option<usize>)
        ensures
            match r {
                Some(key) => is_lowest(self@, key as nat),
                None => self@ == Set::<nat>::empty(),
            },
    {
        let mut key: usize = 0;
        while key < FULLDECK
            invariant
                key <= 52,
                forall|v: nat| v < key ==> !self@.contains(v),
            decreases 52 - key,
        {
            if self.deck.contains_key(&key) {
                return Some(key);
            }
            key += 1;
        }
        assert(self@ =~= Set::<nat>::empty());
        None
    }
}

} // verus!
