//! Poker categories and the tests that tell them apart.
//!
//! Every test is stated over the numbers of the cards, and none depends on the
//! order in which the cards lie.

use vstd::prelude::*;
use vstd::relations::total_ordering;
use vstd::seq_lib::{to_multiset_build, to_multiset_contains};
use crate::card::{rank_number, rank_of, suit_of, Rank};
use crate::error::CardError;
use crate::hand::{all_in_deck, Hand};
use crate::sorting::{
    ascending, lemma_ascending_unique, lemma_rearranged_contains, lemma_rearranged_len,
    lemma_rearranged_map, numbers, rearranged, sort_ascending,
};

verus! {

/// The ten categories of five-card hands, weakest first.
#[derive(Debug, Clone, Copy, PartialEq, Eq, PartialOrd, Structural)]
pub enum PokerHand {
    HighCard,
    OnePair,
    TwoPair,
    ThreeKind,
    Straight,
    Flush,
    FullHouse,
    FourKind,
    StraightFlush,
    RoyalFlush,
}

impl PokerHand {
    /// The place of the category in the order of strength, 0 for the weakest.
    pub open spec fn strength(self) -> nat {
        match self {
            PokerHand::HighCard => 0,
            PokerHand::OnePair => 1,
            PokerHand::TwoPair => 2,
            PokerHand::ThreeKind => 3,
            PokerHand::Straight => 4,
            PokerHand::Flush => 5,
            PokerHand::FullHouse => 6,
            PokerHand::FourKind => 7,
            PokerHand::StraightFlush => 8,
            PokerHand::RoyalFlush => 9,
        }
    }

    /// The place of the category in the order of strength, 0 for the weakest.
    pub fn get_strength(&self) -> (n: u8)
        ensures
            n == self.strength(),
    {
        match self {
            PokerHand::HighCard => 0,
            PokerHand::OnePair => 1,
            PokerHand::TwoPair => 2,
            PokerHand::ThreeKind => 3,
            PokerHand::Straight => 4,
            PokerHand::Flush => 5,
            PokerHand::FullHouse => 6,
            PokerHand::FourKind => 7,
            PokerHand::StraightFlush => 8,
            PokerHand::RoyalFlush => 9,
        }
    }
}

/// The rule that takes a card's number to its rank number.
pub open spec fn rank_key() -> spec_fn(nat) -> nat {
    |v: nat| rank_number(v)
}

/// The rank numbers of `cards`, in the same order.
pub open spec fn ranks_of(cards: Seq<nat>) -> Seq<nat> {
    cards.map_values(rank_key())
}

/// How many of `cards` have the rank number `r`.
pub open spec fn rank_count(cards: Seq<nat>, r: nat) -> nat {
    ranks_of(cards).to_multiset().count(r)
}

/// The tally of `cards` by rank number: fifteen entries, of which entry `r`
/// counts the cards of rank number `r`. Entries 0 and 1 stand for no rank and
/// are always 0.
pub open spec fn histogram(cards: Seq<nat>) -> Seq<nat> {
    Seq::new(15, |r: int| rank_count(cards, r as nat))
}

/// The `n` numbers that follow each other from `lo` on.
pub open spec fn run(lo: nat, n: nat) -> Seq<nat> {
    Seq::new(n, |i: int| (lo + i) as nat)
}

/// The rank numbers of `cards` are, in some order, numbers that follow each
/// other without a gap and without a repeat. An ace counts as 14 only.
pub open spec fn straight(cards: Seq<nat>) -> bool {
    exists|lo: nat| rearranged(ranks_of(cards), #[trigger] run(lo, cards.len()))
}

/// All of `cards` are of one suit.
pub open spec fn flush(cards: Seq<nat>) -> bool {
    forall|i: int| 0 <= i < cards.len() ==> suit_of(#[trigger] cards[i]) == suit_of(cards[0])
}

/// Some rank occurs exactly `n` times among `cards`. The ranks that no card
/// has count too, so this holds of `n == 0` for every hand.
pub open spec fn some_rank_occurs(cards: Seq<nat>, n: nat) -> bool {
    exists|r: int| 0 <= r < 15 && #[trigger] histogram(cards)[r] == n
}

/// How many of the first `upto` entries of `tally` are `n`.
pub open spec fn entries_equal(tally: Seq<nat>, n: nat, upto: nat) -> nat
    decreases upto,
{
    if upto == 0 {
        0
    } else {
        entries_equal(tally, n, (upto - 1) as nat) + if tally[upto - 1] == n {
            1nat
        } else {
            0nat
        }
    }
}

/// Exactly two ranks occur exactly twice among `cards`.
pub open spec fn two_pair(cards: Seq<nat>) -> bool {
    entries_equal(histogram(cards), 2, 15) == 2
}

/// Three cards of one rank and two of another.
pub open spec fn full_house(cards: Seq<nat>) -> bool {
    some_rank_occurs(cards, 3) && some_rank_occurs(cards, 2)
}

/// A flush whose ranks make a straight.
pub open spec fn straight_flush(cards: Seq<nat>) -> bool {
    flush(cards) && straight(cards)
}

/// The lowest card of `cards` is a ten.
pub open spec fn lowest_is_ten(cards: Seq<nat>) -> bool {
    &&& exists|i: int| 0 <= i < cards.len() && rank_of(#[trigger] cards[i]) == Rank::Ten
    &&& forall|i: int| 0 <= i < cards.len() ==> rank_number(#[trigger] cards[i]) >= 10
}

/// A straight flush from the ten up.
pub open spec fn royal_flush(cards: Seq<nat>) -> bool {
    straight_flush(cards) && lowest_is_ten(cards)
}

/// One of the categories that are told by counting ranks alone.
pub open spec fn paired(cards: Seq<nat>) -> bool {
    some_rank_occurs(cards, 4) || some_rank_occurs(cards, 3) || some_rank_occurs(cards, 2)
}

/// The category of a hand of five cards. The tests are made in this order
/// and the first that holds decides.
pub open spec fn category(cards: Seq<nat>) -> PokerHand {
    if some_rank_occurs(cards, 4) {
        PokerHand::FourKind
    } else if full_house(cards) {
        PokerHand::FullHouse
    } else if some_rank_occurs(cards, 3) {
        PokerHand::ThreeKind
    } else if two_pair(cards) {
        PokerHand::TwoPair
    } else if some_rank_occurs(cards, 2) {
        PokerHand::OnePair
    } else if royal_flush(cards) {
        PokerHand::RoyalFlush
    } else if straight_flush(cards) {
        PokerHand::StraightFlush
    } else if flush(cards) {
        PokerHand::Flush
    } else if straight(cards) {
        PokerHand::Straight
    } else {
        PokerHand::HighCard
    }
}

/// All of `ranks` lie within the stretch of as many numbers as there are
/// ranks that starts at `lo`.
pub open spec fn within_stretch(ranks: Seq<nat>, lo: nat) -> bool {
    forall|i: int| 0 <= i < ranks.len() ==> lo <= #[trigger] ranks[i] < lo + ranks.len()
}

/// No two of `ranks` are the same, and all lie within a stretch of as many
/// numbers as there are ranks.
pub open spec fn distinct_in_a_row(ranks: Seq<nat>) -> bool {
    &&& ranks.no_duplicates()
    &&& exists|lo: nat| within_stretch(ranks, lo)
}

/// Each number is smaller than every later one.
spec fn rising(s: Seq<nat>) -> bool {
    forall|i: int, j: int| 0 <= i < j < s.len() ==> s[i] < s[j]
}

/// In a rising sequence that starts at `lo` or above, each number is at
/// least as far above `lo` as it is from the start.
proof fn lemma_rising_from_below(s: Seq<nat>, lo: nat, i: int)
    requires
        rising(s),
        0 <= i < s.len(),
        s[0] >= lo,
    ensures
        s[i] >= lo + i,
    decreases i,
{
    if i > 0 {
        lemma_rising_from_below(s, lo, i - 1);
        assert(s[i - 1] < s[i]);
    }
}

/// In a rising sequence that ends at `hi` or below, each number is at least
/// as far below `hi` as it is from the end.
proof fn lemma_rising_from_above(s: Seq<nat>, hi: nat, i: int)
    requires
        rising(s),
        0 <= i < s.len(),
        s.last() <= hi,
    ensures
        s[i] + (s.len() - 1 - i) <= hi,
    decreases s.len() - i,
{
    if i < s.len() - 1 {
        lemma_rising_from_above(s, hi, i + 1);
        assert(s[i] < s[i + 1]);
    }
}

/// The ranks of a straight, plainly: no two cards have the same rank, and
/// the ranks lie within a stretch of as many numbers as there are cards.
pub proof fn lemma_straight_plainly(cards: Seq<nat>)
    ensures
        straight(cards) <==> distinct_in_a_row(ranks_of(cards)),
{
    let ranks = ranks_of(cards);
    let n = cards.len();
    if straight(cards) {
        let lo = choose|lo: nat| rearranged(ranks, #[trigger] run(lo, n));
        let row = run(lo, n);
        assert(row.no_duplicates());
        row.lemma_multiset_has_no_duplicates();
        ranks.lemma_multiset_has_no_duplicates_conv();
        lemma_rearranged_len(ranks, row);
        assert forall|i: int| 0 <= i < ranks.len() implies lo <= #[trigger] ranks[i] < lo
            + ranks.len() by {
            assert(ranks.contains(ranks[i]));
            lemma_rearranged_contains(ranks, row, ranks[i]);
            let k = choose|k: int| 0 <= k < row.len() && row[k] == ranks[i];
            assert(row[k] == lo + k);
        }
        assert(within_stretch(ranks, lo));
    }
    if distinct_in_a_row(ranks) {
        let lo = choose|lo: nat| within_stretch(ranks, lo);
        let leq = |x: nat, y: nat| x <= y;
        assert(total_ordering(leq));
        let sorted = ranks.sort_by(leq);
        ranks.lemma_sort_by_ensures(leq);
        lemma_rearranged_len(sorted, ranks);
        ranks.lemma_multiset_has_no_duplicates();
        sorted.lemma_multiset_has_no_duplicates_conv();
        assert forall|i: int, j: int| 0 <= i < j < sorted.len() implies sorted[i] < sorted[j] by {
            assert(leq(sorted[i], sorted[j]));
            assert(sorted[i] != sorted[j]);
        }
        assert forall|i: int| 0 <= i < sorted.len() implies lo <= #[trigger] sorted[i] < lo + n by {
            assert(sorted.contains(sorted[i]));
            lemma_rearranged_contains(sorted, ranks, sorted[i]);
            let k = choose|k: int| 0 <= k < ranks.len() && ranks[k] == sorted[i];
            assert(lo <= ranks[k] < lo + n);
        }
        assert forall|i: int| 0 <= i < sorted.len() implies sorted[i] == lo + i by {
            assert(lo <= sorted[0]);
            assert(sorted.last() == sorted[n - 1]);
            assert(sorted[n - 1] < lo + n);
            lemma_rising_from_below(sorted, lo, i);
            lemma_rising_from_above(sorted, (lo + n - 1) as nat, i);
        }
        assert(sorted =~= run(lo, n));
        assert(rearranged(ranks, run(lo, n)));
    }
}

/// The ranks of a royal flush run from the ten up: in a hand of five, from
/// the ten to the ace.
pub proof fn lemma_royal_from_ten(cards: Seq<nat>)
    requires
        royal_flush(cards),
    ensures
        rearranged(ranks_of(cards), run(10, cards.len())),
{
    let ranks = ranks_of(cards);
    let lo = choose|lo: nat| rearranged(ranks, #[trigger] run(lo, cards.len()));
    let row = run(lo, cards.len());
    let w = choose|i: int| 0 <= i < cards.len() && rank_of(#[trigger] cards[i]) == Rank::Ten;
    assert(ranks[w] == 10);
    assert(ranks.contains(10));
    lemma_rearranged_contains(ranks, row, 10);
    let k = choose|k: int| 0 <= k < row.len() && row[k] == 10;
    assert(lo <= 10);
    assert(row[0] == lo);
    assert(row.contains(lo));
    lemma_rearranged_contains(ranks, row, lo);
    let j = choose|j: int| 0 <= j < ranks.len() && ranks[j] == lo;
    assert(ranks[j] == rank_number(cards[j]));
    assert(lo >= 10);
}

/// Where some of the first `upto` entries of `tally` are counted as equal to
/// `n`, one of them is `n`.
proof fn lemma_entry_found(tally: Seq<nat>, n: nat, upto: nat)
    requires
        entries_equal(tally, n, upto) > 0,
    ensures
        exists|r: int| 0 <= r < upto && tally[r] == n,
    decreases upto,
{
    if upto > 0 {
        if tally[upto - 1] != n {
            lemma_entry_found(tally, n, (upto - 1) as nat);
            let r = choose|r: int| 0 <= r < upto - 1 && tally[r] == n;
            assert(0 <= r < upto && tally[r] == n);
        }
    }
}

/// No card has a rank number below 2 or above 14: the tally is 0 there, so
/// some entry of every tally is 0.
pub proof fn lemma_tally_ends(cards: Seq<nat>, r: nat)
    requires
        r < 2 || r > 14,
    ensures
        rank_count(cards, r) == 0,
        some_rank_occurs(cards, 0),
{
    let ranks = ranks_of(cards);
    to_multiset_contains(ranks, r);
    to_multiset_contains(ranks, 0);
    if ranks.contains(r) {
        let i = choose|i: int| 0 <= i < ranks.len() && ranks[i] == r;
        assert(ranks[i] == rank_number(cards[i]));
    }
    if ranks.contains(0) {
        let i = choose|i: int| 0 <= i < ranks.len() && ranks[i] == 0;
        assert(ranks[i] == rank_number(cards[i]));
    }
    assert(histogram(cards)[0] == 0);
}

/// In a straight no rank occurs twice, so the counting of ranks finds
/// nothing in it: a straight of five is classified as a straight, or as the
/// flush that it also is.
pub proof fn lemma_straight_unpaired(cards: Seq<nat>)
    requires
        straight(cards),
    ensures
        !paired(cards),
        !two_pair(cards),
        category(cards) == PokerHand::Straight || flush(cards),
{
    lemma_straight_plainly(cards);
    let ranks = ranks_of(cards);
    ranks.lemma_multiset_has_no_duplicates();
    assert forall|r: int| 0 <= r < 15 implies #[trigger] histogram(cards)[r] <= 1 by {
        if ranks.to_multiset().count(r as nat) > 0 {
            assert(ranks.to_multiset().contains(r as nat));
        }
    }
    if two_pair(cards) {
        lemma_entry_found(histogram(cards), 2, 15);
    }
}

/// The tally by rank does not depend on the order of the cards.
pub proof fn lemma_histogram_order_free(a: Seq<nat>, b: Seq<nat>)
    requires
        rearranged(a, b),
    ensures
        histogram(a) == histogram(b),
{
    lemma_rearranged_map(a, b, rank_key());
    assert(histogram(a) =~= histogram(b));
}

/// Whether the ranks make a straight does not depend on the order of the
/// cards.
pub proof fn lemma_straight_order_free(a: Seq<nat>, b: Seq<nat>)
    requires
        rearranged(a, b),
    ensures
        straight(a) == straight(b),
{
    lemma_rearranged_map(a, b, rank_key());
    lemma_rearranged_len(a, b);
    if straight(a) {
        let lo = choose|lo: nat| rearranged(ranks_of(a), #[trigger] run(lo, a.len()));
        assert(rearranged(ranks_of(b), run(lo, b.len())));
    }
    if straight(b) {
        let lo = choose|lo: nat| rearranged(ranks_of(b), #[trigger] run(lo, b.len()));
        assert(rearranged(ranks_of(a), run(lo, a.len())));
    }
}

/// If all of `a` are of one suit, so are all of a rearrangement of `a`.
proof fn lemma_flush_carries(a: Seq<nat>, b: Seq<nat>)
    requires
        rearranged(a, b),
        flush(a),
    ensures
        flush(b),
{
    assert forall|i: int| 0 <= i < b.len() implies suit_of(#[trigger] b[i]) == suit_of(b[0]) by {
        assert(b.contains(b[i]));
        assert(b.contains(b[0]));
        lemma_rearranged_contains(a, b, b[i]);
        lemma_rearranged_contains(a, b, b[0]);
        let j = choose|j: int| 0 <= j < a.len() && a[j] == b[i];
        let k = choose|k: int| 0 <= k < a.len() && a[k] == b[0];
        assert(suit_of(a[j]) == suit_of(a[0]));
        assert(suit_of(a[k]) == suit_of(a[0]));
    }
}

/// Whether all cards are of one suit does not depend on their order.
pub proof fn lemma_flush_order_free(a: Seq<nat>, b: Seq<nat>)
    requires
        rearranged(a, b),
    ensures
        flush(a) == flush(b),
{
    if flush(a) {
        lemma_flush_carries(a, b);
    }
    if flush(b) {
        lemma_flush_carries(b, a);
    }
}

/// If the lowest card of `a` is a ten, so is that of a rearrangement of `a`.
proof fn lemma_lowest_carries(a: Seq<nat>, b: Seq<nat>)
    requires
        rearranged(a, b),
        lowest_is_ten(a),
    ensures
        lowest_is_ten(b),
{
    let w = choose|i: int| 0 <= i < a.len() && rank_of(#[trigger] a[i]) == Rank::Ten;
    assert(a.contains(a[w]));
    lemma_rearranged_contains(a, b, a[w]);
    let x = choose|x: int| 0 <= x < b.len() && b[x] == a[w];
    assert(rank_of(b[x]) == Rank::Ten);
    assert forall|i: int| 0 <= i < b.len() implies rank_number(#[trigger] b[i]) >= 10 by {
        assert(b.contains(b[i]));
        lemma_rearranged_contains(a, b, b[i]);
        let j = choose|j: int| 0 <= j < a.len() && a[j] == b[i];
        assert(rank_number(a[j]) >= 10);
    }
}

/// Whether the lowest card is a ten does not depend on the order of the
/// cards.
pub proof fn lemma_lowest_order_free(a: Seq<nat>, b: Seq<nat>)
    requires
        rearranged(a, b),
    ensures
        lowest_is_ten(a) == lowest_is_ten(b),
{
    if lowest_is_ten(a) {
        lemma_lowest_carries(a, b);
    }
    if lowest_is_ten(b) {
        lemma_lowest_carries(b, a);
    }
}

/// The category of a hand does not depend on the order of its cards: a hand
/// and any rearrangement of it, a sorted one among them, are classified
/// alike, and so is one hand however often it is classified.
pub proof fn lemma_category_order_free(a: Seq<nat>, b: Seq<nat>)
    requires
        rearranged(a, b),
    ensures
        category(a) == category(b),
        paired(a) == paired(b),
{
    lemma_histogram_order_free(a, b);
    lemma_straight_order_free(a, b);
    lemma_flush_order_free(a, b);
    lemma_lowest_order_free(a, b);
}

/// In a sorted flush the first card has the lowest rank.
proof fn lemma_sorted_flush_lowest(s: Seq<nat>)
    requires
        s.len() > 0,
        ascending(s),
        flush(s),
        all_in_deck(s),
    ensures
        lowest_is_ten(s) == (rank_of(s[0]) == Rank::Ten),
{
    assert forall|i: int| 0 <= i < s.len() implies rank_number(s[0]) <= rank_number(
        #[trigger] s[i],
    ) by {
        assert(suit_of(s[i]) == suit_of(s[0]));
        assert(s[i] < 52 && s[0] < 52);
        assert(s[0] <= s[i]);
        assert(s[i] / 13 == s[0] / 13);
    }
    if lowest_is_ten(s) {
        let w = choose|i: int| 0 <= i < s.len() && rank_of(#[trigger] s[i]) == Rank::Ten;
        assert(rank_number(s[0]) <= rank_number(s[w]));
        assert(rank_number(s[0]) >= 10);
    }
}

/// How classifying a hand of five leaves its cards: a hand with a rank that
/// occurs more than once stays as it is, any other is sorted.
pub open spec fn settled(before: Seq<nat>, after: Seq<nat>) -> bool {
    if paired(before) {
        after == before
    } else {
        ascending(after) && rearranged(after, before)
    }
}

/// A hand that was classified is classified alike again, and the second
/// time its cards stay as they lie.
pub proof fn lemma_classified_again(before: Seq<nat>, after: Seq<nat>)
    requires
        settled(before, after),
    ensures
        category(after) == category(before),
        settled(after, after),
{
    lemma_category_order_free(after, before);
}

impl Hand {
    /// Tallies the cards by rank number.
    pub fn find_matches(&self) -> (matches: Vec<usize>)
        ensures
            matches.len() == 15,
            numbers(matches@) == histogram(self@),
    {
        let mut matches: Vec<usize> = Vec::new();
        let mut r: usize = 0;
        while r < 15
            invariant
                r <= 15,
                matches.len() == r,
                forall|k: int| 0 <= k < r ==> matches[k] == 0,
            decreases 15 - r,
        {
            matches.push(0);
            r += 1;
        }
        let n: usize = self.hand.len();
        let mut i: usize = 0;
        proof {
            let none = ranks_of(self@.take(0));
            assert(none.len() == 0);
            vstd::seq_lib::to_multiset_len(none);
            assert forall|k: int| 0 <= k < 15 implies #[trigger] matches[k] == rank_count(
                self@.take(0),
                k as nat,
            ) by {
                assert(none.to_multiset().count(k as nat) <= none.to_multiset().len());
            }
        }
        while i < n
            invariant
                i <= n,
                n == self.hand.len(),
                matches.len() == 15,
                forall|k: int| 0 <= k < 15 ==> matches[k] == rank_count(self@.take(i as int), k as nat),
                forall|k: int| 0 <= k < 15 ==> matches[k] <= i,
            decreases n - i,
        {
            let rank: usize = self.hand[i].get_rank_usize();
            proof {
                let seen = ranks_of(self@.take(i as int));
                assert(ranks_of(self@.take(i + 1)) =~= seen.push(rank as nat));
                to_multiset_build(seen, rank as nat);
            }
            let count: usize = matches[rank];
            matches.set(rank, count + 1);
            i += 1;
        }
        assert(self@.take(n as int) =~= self@);
        assert(numbers(matches@) =~= histogram(self@));
        matches
    }

    /// Whether the ranks follow each other without a gap. The hand must hold
    /// a card.
    pub fn is_straight(&self) -> (r: bool)
        requires
            self.hand.len() > 0,
        ensures
            r == straight(self@),
    {
        let n: usize = self.hand.len();
        let mut strait_vec: Vec<usize> = Vec::new();
        let mut i: usize = 0;
        while i < n
            invariant
                i <= n,
                n == self.hand.len(),
                strait_vec.len() == i,
                forall|k: int| 0 <= k < i ==> strait_vec[k] == rank_number(self@[k]),
            decreases n - i,
        {
            strait_vec.push(self.hand[i].get_rank_usize());
            i += 1;
        }
        assert(numbers(strait_vec@) =~= ranks_of(self@));
        sort_ascending(&mut strait_vec);
        let ghost sorted = numbers(strait_vec@);
        proof {
            lemma_rearranged_len(sorted, ranks_of(self@));
            assert forall|k: int| 0 <= k < n implies sorted[k] <= 14 by {
                assert(sorted.contains(sorted[k]));
                lemma_rearranged_contains(sorted, ranks_of(self@), sorted[k]);
            }
        }
        let base: usize = strait_vec[0];
        assert(sorted[0] == base);
        let mut j: usize = 0;
        while j < n
            invariant
                j <= n,
                n == strait_vec.len(),
                n == self.hand.len(),
                sorted == numbers(strait_vec@),
                base == strait_vec[0],
                base <= 14,
                ascending(sorted),
                rearranged(sorted, ranks_of(self@)),
                forall|k: int| 0 <= k < n ==> sorted[k] <= 14,
                forall|k: int| 0 <= k < j ==> sorted[k] == base + k,
            decreases n - j,
        {
            assert(sorted[j as int] == strait_vec[j as int]);
            assert(j > 0 ==> sorted[j - 1] == base + j - 1);
            if strait_vec[j] != base + j {
                proof {
                    if straight(self@) {
                        let lo = choose|lo: nat|
                            rearranged(ranks_of(self@), #[trigger] run(lo, self@.len()));
                        lemma_ascending_unique(sorted, run(lo, self@.len()));
                        assert(sorted[0] == lo);
                        assert(sorted[j as int] == lo + j);
                    }
                }
                return false;
            }
            j += 1;
        }
        assert(sorted =~= run(base as nat, self@.len()));
        true
    }

    /// Whether all cards are of one suit. The hand must hold a card.
    pub fn is_flush(&self) -> (r: bool)
        requires
            self.hand.len() > 0,
        ensures
            r == flush(self@),
    {
        let base = self.hand[0].get_suit();
        let n: usize = self.hand.len();
        let mut i: usize = 0;
        while i < n
            invariant
                i <= n,
                n == self.hand.len(),
                base == suit_of(self@[0]),
                forall|k: int| 0 <= k < i ==> suit_of(#[trigger] self@[k]) == base,
            decreases n - i,
        {
            if self.hand[i].get_suit() != base {
                assert(suit_of(self@[i as int]) != suit_of(self@[0]));
                return false;
            }
            i += 1;
        }
        true
    }

    /// Whether the hand is a flush whose ranks make a straight. The hand must
    /// hold a card.
    pub fn is_straight_flush(&self) -> (r: bool)
        requires
            self.hand.len() > 0,
        ensures
            r == straight_flush(self@),
    {
        if self.is_flush() && self.is_straight() {
            return true;
        }
        false
    }

    /// Sorts the hand, then tells whether it is a straight flush from the ten
    /// up. The hand must hold a card.
    pub fn is_royal_flush(&mut self) -> (r: bool)
        requires
            old(self).hand.len() > 0,
        ensures
            r == royal_flush(old(self)@),
            ascending(final(self)@),
            rearranged(final(self)@, old(self)@),
            all_in_deck(final(self)@),
            final(self).name == old(self).name,
    {
        self.sort_by_suit();
        proof {
            lemma_rearranged_len(self@, old(self)@);
            lemma_straight_order_free(self@, old(self)@);
            lemma_flush_order_free(self@, old(self)@);
            lemma_lowest_order_free(self@, old(self)@);
            if flush(self@) {
                lemma_sorted_flush_lowest(self@);
            }
        }
        if self.is_straight_flush() && self.hand[0].get_rank() == Rank::Ten {
            return true;
        }
        false
    }

    /// Whether some rank occurs exactly `num` times in the hand. Two pairs
    /// are not told from one by this.
    pub fn is_match_of_kind(&self, num: usize) -> (r: bool)
        ensures
            r == some_rank_occurs(self@, num as nat),
    {
        let matches = self.find_matches();
        let mut k: usize = 0;
        while k < 15
            invariant
                k <= 15,
                matches.len() == 15,
                numbers(matches@) == histogram(self@),
                forall|j: int| 0 <= j < k ==> histogram(self@)[j] != num,
            decreases 15 - k,
        {
            assert(numbers(matches@)[k as int] == matches[k as int]);
            if matches[k] == num {
                return true;
            }
            k += 1;
        }
        false
    }

    /// Whether exactly two ranks occur exactly twice in the hand.
    pub fn is_two_pair(&self) -> (r: bool)
        ensures
            r == two_pair(self@),
            r ==> some_rank_occurs(self@, 2),
    {
        let matches = self.find_matches();
        let mut pair: usize = 0;
        let mut k: usize = 0;
        while k < 15
            invariant
                k <= 15,
                pair <= k,
                matches.len() == 15,
                numbers(matches@) == histogram(self@),
                pair == entries_equal(histogram(self@), 2, k as nat),
            decreases 15 - k,
        {
            assert(numbers(matches@)[k as int] == matches[k as int]);
            if matches[k] == 2 {
                pair += 1;
            }
            k += 1;
        }
        if pair == 2 {
            proof {
                lemma_entry_found(histogram(self@), 2, 15);
            }
            return true;
        }
        false
    }

    /// Whether the hand holds three cards of one rank and two of another.
    pub fn is_full_house(&self) -> (r: bool)
        ensures
            r == full_house(self@),
    {
        if self.is_match_of_kind(3) && self.is_match_of_kind(2) {
            return true;
        }
        false
    }

    /// The category of a hand of exactly five cards; any other hand is
    /// refused with `NotFullHand` and left as it is.
    ///
    /// A hand with a rank that occurs more than once is left as it is; any
    /// other hand of five is left sorted.
    pub fn find_poker_hand(&mut self) -> (r: Result<PokerHand, CardError>)
        ensures
            final(self).name == old(self).name,
            old(self).hand.len() != 5 ==> r == Err::<PokerHand, CardError>(CardError::NotFullHand)
                && final(self).hand@ == old(self).hand@,
            old(self).hand.len() == 5 ==> r == Ok::<PokerHand, CardError>(category(old(self)@))
                && settled(old(self)@, final(self)@),
    {
        if self.hand.len() != 5 {
            return Err(CardError::NotFullHand);
        }
        if self.is_match_of_kind(4) {
            return Ok(PokerHand::FourKind);
        } else if self.is_full_house() {
            return Ok(PokerHand::FullHouse);
        } else if self.is_match_of_kind(3) {
            return Ok(PokerHand::ThreeKind);
        } else if self.is_two_pair() {
            return Ok(PokerHand::TwoPair);
        } else if self.is_match_of_kind(2) {
            return Ok(PokerHand::OnePair);
        }
        let royal = self.is_royal_flush();
        proof {
            lemma_rearranged_len(self@, old(self)@);
            lemma_straight_order_free(self@, old(self)@);
            lemma_flush_order_free(self@, old(self)@);
        }
        if royal {
            return Ok(PokerHand::RoyalFlush);
        } else if self.is_straight_flush() {
            return Ok(PokerHand::StraightFlush);
        } else if self.is_flush() {
            return Ok(PokerHand::Flush);
        } else if self.is_straight() {
            return Ok(PokerHand::Straight);
        }
        Ok(PokerHand::HighCard)
    }
}

} // verus!
