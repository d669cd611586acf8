//! Cards and their encoding.
//!
//! A card is a number below 52. The suit is the number divided by 13, the
//! rank is the remainder: 0 is the Two of Clubs, 12 the Ace of Clubs, 13 the
//! Two of Diamonds, 51 the Ace of Spades.

use vstd::prelude::*;
use crate::error::CardError;

verus! {

/// Number of cards in a full deck.
pub const FULLDECK: usize = 52;

/// Number of ranks in each suit.
pub const DIVIDER: usize = 13;

/// The four suits, in alphabetical order.
#[derive(Debug, Copy, Clone, PartialEq, Eq, Structural)]
pub enum Suit {
    Club,
    Diamond,
    Heart,
    Spade,
}

/// The ranks, lowest first. No card of the deck is a joker.
#[derive(Debug, Clone, Copy, PartialEq, Eq, PartialOrd, Structural)]
pub enum Rank {
    Two,
    Three,
    Four,
    Five,
    Six,
    Seven,
    Eight,
    Nine,
    Ten,
    Jack,
    Queen,
    King,
    Ace,
    Joker,
}

/// The suit of the card numbered `v`.
pub open spec fn suit_of(v: nat) -> Suit {
    if v / 13 == 0 {
        Suit::Club
    } else if v / 13 == 1 {
        Suit::Diamond
    } else if v / 13 == 2 {
        Suit::Heart
    } else {
        Suit::Spade
    }
}

/// The rank of the card numbered `v`.
pub open spec fn rank_of(v: nat) -> Rank {
    let r = v % 13;
    if r == 0 {
        Rank::Two
    } else if r == 1 {
        Rank::Three
    } else if r == 2 {
        Rank::Four
    } else if r == 3 {
        Rank::Five
    } else if r == 4 {
        Rank::Six
    } else if r == 5 {
        Rank::Seven
    } else if r == 6 {
        Rank::Eight
    } else if r == 7 {
        Rank::Nine
    } else if r == 8 {
        Rank::Ten
    } else if r == 9 {
        Rank::Jack
    } else if r == 10 {
        Rank::Queen
    } else if r == 11 {
        Rank::King
    } else {
        Rank::Ace
    }
}

/// The rank of card `v` as a number to compare by: Two is 2, Ace is 14.
pub open spec fn rank_number(v: nat) -> nat {
    v % 13 + 2
}

/// The suit of card `v` as a number: Club 0, Diamond 1, Heart 2, Spade 3.
pub open spec fn suit_number(v: nat) -> nat {
    v / 13
}

/// The English name of a rank.
pub open spec fn rank_name(rank: Rank) -> Seq<char> {
    match rank {
        Rank::Two => "Two"@,
        Rank::Three => "Three"@,
        Rank::Four => "Four"@,
        Rank::Five => "Five"@,
        Rank::Six => "Six"@,
        Rank::Seven => "Seven"@,
        Rank::Eight => "Eight"@,
        Rank::Nine => "Nine"@,
        Rank::Ten => "Ten"@,
        Rank::Jack => "Jack"@,
        Rank::Queen => "Queen"@,
        Rank::King => "King"@,
        Rank::Ace => "Ace"@,
        Rank::Joker => "Joker"@,
    }
}

/// The English name of a suit.
pub open spec fn suit_name(suit: Suit) -> Seq<char> {
    match suit {
        Suit::Club => "Club"@,
        Suit::Diamond => "Diamond"@,
        Suit::Heart => "Heart"@,
        Suit::Spade => "Spade"@,
    }
}

/// How the card numbered `v` is written out: `Seven of Clubs`.
pub open spec fn card_text(v: nat) -> Seq<char> {
    rank_name(rank_of(v)) + " of "@ + suit_name(suit_of(v)) + "s"@
}

/// The English name of a rank.
fn rank_word(rank: Rank) -> (word: &'static str)
    ensures
        word@ == rank_name(rank),
{
    match rank {
        Rank::Two => "Two",
        Rank::Three => "Three",
        Rank::Four => "Four",
        Rank::Five => "Five",
        Rank::Six => "Six",
        Rank::Seven => "Seven",
        Rank::Eight => "Eight",
        Rank::Nine => "Nine",
        Rank::Ten => "Ten",
        Rank::Jack => "Jack",
        Rank::Queen => "Queen",
        Rank::King => "King",
        Rank::Ace => "Ace",
        Rank::Joker => "Joker",
    }
}

/// The English name of a suit.
fn suit_word(suit: Suit) -> (word: &'static str)
    ensures
        word@ == suit_name(suit),
{
    match suit {
        Suit::Club => "Club",
        Suit::Diamond => "Diamond",
        Suit::Heart => "Heart",
        Suit::Spade => "Spade",
    }
}

/// One of the 52 playing cards. Cards are equal where their numbers are, and
/// are ordered by their numbers: by suit first, by rank within a suit.
#[derive(Debug, Clone, Copy, Eq, Ord, PartialEq, PartialOrd, Structural)]
pub struct Card {
    value: usize,
}

impl View for Card {
    type V = nat;

    /// The card's number, below 52.
    closed spec fn view(&self) -> nat {
        self.value as nat
    }
}

impl Card {
    /// The number is that of a card.
    #[verifier::type_invariant]
    spec fn in_deck(self) -> bool {
        self.value < 52
    }

    /// The card numbered `value`.
    pub fn new(value: usize) -> (card: Card)
        requires
            value < 52,
        ensures
            card@ == value,
    {
        Card { value }
    }

    /// The card's suit.
    pub fn get_suit(&self) -> (suit: Suit)
        ensures
            suit == suit_of(self@),
    {
        proof {
            use_type_invariant(self);
        }
        let suits = [Suit::Club, Suit::Diamond, Suit::Heart, Suit::Spade];
        let pick = self.value / DIVIDER;
        suits[pick]
    }

    /// The card's rank.
    pub fn get_rank(&self) -> (rank: Rank)
        ensures
            rank == rank_of(self@),
            rank != Rank::Joker,
    {
        let rank = match self.value % DIVIDER {
            0 => Rank::Two,
            1 => Rank::Three,
            2 => Rank::Four,
            3 => Rank::Five,
            4 => Rank::Six,
            5 => Rank::Seven,
            6 => Rank::Eight,
            7 => Rank::Nine,
            8 => Rank::Ten,
            9 => Rank::Jack,
            10 => Rank::Queen,
            11 => Rank::King,
            12 => Rank::Ace,
            _ => Rank::Joker,
        };
        rank
    }

    /// The rank as a number, for comparing ranks.
    pub fn get_rank_usize(&self) -> (n: usize)
        ensures
            n == rank_number(self@),
            2 <= n <= 14,
    {
        (self.value % 13) + 2
    }

    /// The suit as a number, in the alphabetical order of the suits.
    pub fn get_suit_usize(&self) -> (n: usize)
        ensures
            n == suit_number(self@),
            n <= 3,
    {
        proof {
            use_type_invariant(self);
        }
        self.value / 13
    }

    /// The card written out, as in `Seven of Clubs`.
    pub fn to_string(&self) -> (text: String)
        ensures
            text@ == card_text(self@),
    {
        let mut text = rank_word(self.get_rank()).to_owned();
        text.append(" of ");
        text.append(suit_word(self.get_suit()));
        text.append("s");
        text
    }

    /// The card's number.
    pub fn get_value(&self) -> (value: usize)
        ensures
            value == self@,
            value < 52,
    {
        proof {
            use_type_invariant(self);
        }
        self.value
    }
}

/// The rank that the first character of a two-character card id stands for,
/// as a number from 0 (Two) to 12 (Ace). Ten has a token of two characters
/// and is not found here.
pub open spec fn rank_token(c: char) -> Option<nat> {
    if c == '2' {
        Some(0)
    } else if c == '3' {
        Some(1)
    } else if c == '4' {
        Some(2)
    } else if c == '5' {
        Some(3)
    } else if c == '6' {
        Some(4)
    } else if c == '7' {
        Some(5)
    } else if c == '8' {
        Some(6)
    } else if c == '9' {
        Some(7)
    } else if c == 'j' {
        Some(9)
    } else if c == 'q' {
        Some(10)
    } else if c == 'k' {
        Some(11)
    } else if c == 'a' {
        Some(12)
    } else {
        None
    }
}

/// The suit that the last character of a card id stands for, as a number.
pub open spec fn suit_token(c: char) -> Option<nat> {
    if c == 'c' {
        Some(0)
    } else if c == 'd' {
        Some(1)
    } else if c == 'h' {
        Some(2)
    } else if c == 's' {
        Some(3)
    } else {
        None
    }
}

/// The number of the card that the text `id` names, if it names one.
///
/// A card id is a rank token, one of `2 3 4 5 6 7 8 9 10 j q k a`, directly
/// followed by a suit token, one of `c d h s`. Nothing else is a card id.
pub open spec fn id_value(id: Seq<char>) -> Option<nat> {
    if id.len() == 2 {
        match (rank_token(id[0]), suit_token(id[1])) {
            (Some(r), Some(s)) => Some(13 * s + r),
            _ => None,
        }
    } else if id.len() == 3 && id[0] == '1' && id[1] == '0' {
        match suit_token(id[2]) {
            Some(s) => Some(13 * s + 8),
            None => None,
        }
    } else {
        None
    }
}

/// Reads the rank token of a two-character card id.
fn rank_from_char(c: char) -> (r: Option<usize>)
    ensures
        match r {
            Some(n) => rank_token(c) == Some(n as nat) && n <= 12,
            None => rank_token(c) is None,
        },
{
    match c {
        '2' => Some(0),
        '3' => Some(1),
        '4' => Some(2),
        '5' => Some(3),
        '6' => Some(4),
        '7' => Some(5),
        '8' => Some(6),
        '9' => Some(7),
        'j' => Some(9),
        'q' => Some(10),
        'k' => Some(11),
        'a' => Some(12),
        _ => None,
    }
}

/// Reads a suit token.
fn suit_from_char(c: char) -> (r: Option<usize>)
    ensures
        match r {
            Some(n) => suit_token(c) == Some(n as nat) && n <= 3,
            None => suit_token(c) is None,
        },
{
    match c {
        'c' => Some(0),
        'd' => Some(1),
        'h' => Some(2),
        's' => Some(3),
        _ => None,
    }
}

/// Reads a card id such as `2c`, `10h` or `as` and gives the card's number:
/// `2c` is 0, `as` is 51. Any other text is refused with `NotCardId`.
pub fn value_from_id(id: &str) -> (r: Result<usize, CardError>)
    ensures
        match r {
            Ok(v) => id_value(id@) == Some(v as nat) && v < 52,
            Err(e) => e == CardError::NotCardId && id_value(id@) is None,
        },
{
    let n = id.unicode_len();
    if n == 2 {
        match (rank_from_char(id.get_char(0)), suit_from_char(id.get_char(1))) {
            (Some(r), Some(s)) => Ok(DIVIDER * s + r),
            _ => Err(CardError::NotCardId),
        }
    } else if n == 3 && id.get_char(0) == '1' && id.get_char(1) == '0' {
        match suit_from_char(id.get_char(2)) {
            Some(s) => Ok(DIVIDER * s + 8),
            None => Err(CardError::NotCardId),
        }
    } else {
        Err(CardError::NotCardId)
    }
}

/// The rank that a card id names.
pub open spec fn id_rank(id: Seq<char>) -> Rank {
    if id.len() == 3 {
        Rank::Ten
    } else if id[0] == '2' {
        Rank::Two
    } else if id[0] == '3' {
        Rank::Three
    } else if id[0] == '4' {
        Rank::Four
    } else if id[0] == '5' {
        Rank::Five
    } else if id[0] == '6' {
        Rank::Six
    } else if id[0] == '7' {
        Rank::Seven
    } else if id[0] == '8' {
        Rank::Eight
    } else if id[0] == '9' {
        Rank::Nine
    } else if id[0] == 'j' {
        Rank::Jack
    } else if id[0] == 'q' {
        Rank::Queen
    } else if id[0] == 'k' {
        Rank::King
    } else {
        Rank::Ace
    }
}

/// The suit that a card id names.
pub open spec fn id_suit(id: Seq<char>) -> Suit {
    if id.last() == 'c' {
        Suit::Club
    } else if id.last() == 'd' {
        Suit::Diamond
    } else if id.last() == 'h' {
        Suit::Heart
    } else {
        Suit::Spade
    }
}

/// The rank token of the rank with the index `r`, from 0 for the two to 12
/// for the ace.
pub open spec fn rank_text(r: nat) -> Seq<char> {
    if r == 0 {
        seq!['2']
    } else if r == 1 {
        seq!['3']
    } else if r == 2 {
        seq!['4']
    } else if r == 3 {
        seq!['5']
    } else if r == 4 {
        seq!['6']
    } else if r == 5 {
        seq!['7']
    } else if r == 6 {
        seq!['8']
    } else if r == 7 {
        seq!['9']
    } else if r == 8 {
        seq!['1', '0']
    } else if r == 9 {
        seq!['j']
    } else if r == 10 {
        seq!['q']
    } else if r == 11 {
        seq!['k']
    } else {
        seq!['a']
    }
}

/// The suit token of the suit with the number `s`.
pub open spec fn suit_text(s: nat) -> Seq<char> {
    if s == 0 {
        seq!['c']
    } else if s == 1 {
        seq!['d']
    } else if s == 2 {
        seq!['h']
    } else {
        seq!['s']
    }
}

/// The id of the card numbered `v`.
pub open spec fn id_of(v: nat) -> Seq<char> {
    rank_text(v % 13) + suit_text(v / 13)
}

/// The number of every card splits into a suit number of at most 3 and a
/// rank number from 2 to 14, and is given back by the two; no card is a
/// joker.
pub proof fn lemma_card_encoding(v: nat)
    requires
        v < 52,
    ensures
        suit_number(v) <= 3,
        2 <= rank_number(v) <= 14,
        v == 13 * suit_number(v) + rank_number(v) - 2,
        rank_of(v) != Rank::Joker,
{
}

/// A card id gives the number of a card, and that card has the rank and the
/// suit that the id names, so it is written out with their names.
pub proof fn lemma_id_round_trip(id: Seq<char>)
    requires
        id_value(id) is Some,
    ensures
        id_value(id)->Some_0 < 52,
        rank_of(id_value(id)->Some_0) == id_rank(id),
        suit_of(id_value(id)->Some_0) == id_suit(id),
        card_text(id_value(id)->Some_0) == rank_name(id_rank(id)) + " of "@ + suit_name(
            id_suit(id),
        ) + "s"@,
{
}

/// Every card has an id, and the id gives back the card's number.
pub proof fn lemma_id_of_number(v: nat)
    requires
        v < 52,
    ensures
        id_value(id_of(v)) == Some(v),
{
    let r = v % 13;
    let s = v / 13;
    assert(id_of(v).len() == rank_text(r).len() + 1);
    assert(id_of(v).last() == suit_text(s)[0]);
    assert(id_of(v)[0] == rank_text(r)[0]);
    if r == 8 {
        assert(id_of(v)[1] == '0');
    }
}

/// A card has one id only: a text that gives a card's number is that card's
/// id.
pub proof fn lemma_id_unique(id: Seq<char>)
    requires
        id_value(id) is Some,
    ensures
        id == id_of(id_value(id)->Some_0),
{
    let v = id_value(id)->Some_0;
    assert(id =~= id_of(v));
}

/// Two cards with the same number are the same card.
pub proof fn lemma_card_by_number(a: Card, b: Card)
    requires
        a@ == b@,
    ensures
        a == b,
{
}

} // verus!
