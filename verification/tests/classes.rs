use cardlib::{Card, CardError, Hand, PokerHand};

fn hand_of(cards: &[usize]) -> Hand {
    let mut player = Hand::new("tester");
    for c in cards.iter() {
        player.deal_card(Card::new(*c));
    }
    player
}

fn values(hand: &Hand) -> Vec<usize> {
    hand.hand.iter().map(|c| c.get_value()).collect()
}

#[test]
fn test_matching() {
    let mut player = Hand::new("tester");
    let cards: Vec<usize> = vec![6, 19, 33, 46, 12];
    for c in cards.iter() {
        player.deal_card(Card::new(*c));
    }
    assert_eq!(
        player.find_matches(),
        vec![0, 0, 0, 0, 0, 0, 0, 0, 2, 2, 0, 0, 0, 0, 1]
    );
}

#[test]
fn test_royal_chk() {
    let mut player = Hand::new("tester");
    let cards: Vec<usize> = vec![8, 9, 10, 11, 12];
    for c in cards.iter() {
        player.deal_card(Card::new(*c));
    }
    assert_eq!(player.is_royal_flush(), true);
}

#[test]
fn test_full_house_chk() {
    let mut player = Hand::new("tester");
    let cards: Vec<usize> = vec![6, 19, 32, 1, 14];
    for c in cards.iter() {
        player.deal_card(Card::new(*c));
    }
    assert_eq!(player.is_full_house(), true);
}

#[test]
fn test_stait_chk() {
    let mut player = Hand::new("tester");
    let cards: Vec<usize> = vec![6, 20, 8, 22, 10];
    for c in cards.iter() {
        player.deal_card(Card::new(*c));
    }
    assert_eq!(player.is_straight(), true);
}

#[test]
fn tally_of_no_card() {
    assert_eq!(Hand::new("tester").find_matches(), vec![0; 15]);
}

#[test]
fn tally_counts_every_rank() {
    let player = hand_of(&[0, 13, 26, 39, 12, 51, 7]);
    assert_eq!(
        player.find_matches(),
        vec![0, 0, 4, 0, 0, 0, 0, 0, 0, 1, 0, 0, 0, 0, 2]
    );
}

#[test]
fn royal_flush_is_found() {
    let mut player = hand_of(&[8, 9, 10, 11, 12]);
    assert_eq!(player.find_poker_hand(), Ok(PokerHand::RoyalFlush));
    let mut shuffled = hand_of(&[50, 47, 51, 48, 49]);
    assert_eq!(shuffled.find_poker_hand(), Ok(PokerHand::RoyalFlush));
    assert_eq!(values(&shuffled), vec![47, 48, 49, 50, 51]);
}

#[test]
fn straight_is_found() {
    let mut player = hand_of(&[6, 20, 8, 22, 10]);
    assert_eq!(player.find_poker_hand(), Ok(PokerHand::Straight));
    assert_eq!(values(&player), vec![6, 8, 10, 20, 22]);
}

#[test]
fn full_house_is_found() {
    let mut player = hand_of(&[6, 19, 32, 1, 14]);
    assert_eq!(player.find_poker_hand(), Ok(PokerHand::FullHouse));
    assert_eq!(values(&player), vec![6, 19, 32, 1, 14]);
}

#[test]
fn two_pair_is_found() {
    let mut player = hand_of(&[6, 19, 33, 46, 12]);
    assert!(player.is_two_pair());
    assert!(player.is_match_of_kind(2));
    assert!(!player.is_match_of_kind(3));
    assert!(!player.is_full_house());
    assert_eq!(player.find_poker_hand(), Ok(PokerHand::TwoPair));
    assert_eq!(values(&player), vec![6, 19, 33, 46, 12]);
}

#[test]
fn each_category_is_found() {
    assert_eq!(hand_of(&[0, 13, 26, 39, 5]).find_poker_hand(), Ok(PokerHand::FourKind));
    assert_eq!(hand_of(&[0, 13, 26, 40, 5]).find_poker_hand(), Ok(PokerHand::ThreeKind));
    assert_eq!(hand_of(&[0, 13, 27, 40, 5]).find_poker_hand(), Ok(PokerHand::TwoPair));
    assert_eq!(hand_of(&[0, 13, 27, 41, 5]).find_poker_hand(), Ok(PokerHand::OnePair));
    assert_eq!(hand_of(&[3, 4, 5, 6, 7]).find_poker_hand(), Ok(PokerHand::StraightFlush));
    assert_eq!(hand_of(&[26, 28, 30, 32, 34]).find_poker_hand(), Ok(PokerHand::Flush));
    assert_eq!(hand_of(&[3, 17, 31, 45, 7]).find_poker_hand(), Ok(PokerHand::Straight));
    assert_eq!(hand_of(&[0, 15, 30, 45, 12]).find_poker_hand(), Ok(PokerHand::HighCard));
}

#[test]
fn ace_does_not_start_a_straight() {
    let mut wheel = hand_of(&[12, 13, 14, 15, 16]);
    assert!(!wheel.is_straight());
    assert_eq!(wheel.find_poker_hand(), Ok(PokerHand::HighCard));
    let mut same_suit = hand_of(&[12, 0, 1, 2, 3]);
    assert!(same_suit.is_flush());
    assert!(!same_suit.is_straight());
    assert_eq!(same_suit.find_poker_hand(), Ok(PokerHand::Flush));
    let mut top = hand_of(&[8, 22, 36, 50, 12]);
    assert!(top.is_straight());
    assert_eq!(top.find_poker_hand(), Ok(PokerHand::Straight));
}

#[test]
fn pairs_are_no_straight() {
    assert!(!hand_of(&[0, 13, 1, 2, 3]).is_straight());
    assert!(!hand_of(&[0, 2, 3, 4, 5]).is_straight());
    assert!(hand_of(&[4, 0, 3, 1, 2]).is_straight());
    assert!(hand_of(&[7]).is_straight());
    assert!(hand_of(&[7, 21]).is_straight());
    assert!(!hand_of(&[7, 20]).is_straight());
}

#[test]
fn flush_goes_by_suit_alone() {
    assert!(hand_of(&[0, 5, 12, 3, 9]).is_flush());
    assert!(hand_of(&[39]).is_flush());
    assert!(!hand_of(&[0, 5, 13, 3, 9]).is_flush());
    assert!(!hand_of(&[13, 0, 1, 2, 3]).is_flush());
}

#[test]
fn straight_flush_needs_both() {
    assert!(hand_of(&[13, 14, 15, 16, 17]).is_straight_flush());
    assert!(!hand_of(&[13, 14, 15, 16, 18]).is_straight_flush());
    assert!(!hand_of(&[13, 14, 15, 16, 4]).is_straight_flush());
}

#[test]
fn royal_flush_starts_at_the_ten() {
    let mut royal = hand_of(&[25, 21, 24, 22, 23]);
    assert!(royal.is_royal_flush());
    assert_eq!(values(&royal), vec![21, 22, 23, 24, 25]);
    let mut lower = hand_of(&[20, 21, 22, 23, 24]);
    assert!(!lower.is_royal_flush());
    let mut mixed = hand_of(&[8, 22, 36, 50, 12]);
    assert!(!mixed.is_royal_flush());
    assert_eq!(values(&mixed), vec![8, 12, 22, 36, 50]);
}

#[test]
fn matches_of_a_kind() {
    let quads = hand_of(&[0, 13, 26, 39, 5]);
    assert!(quads.is_match_of_kind(4));
    assert!(quads.is_match_of_kind(1));
    assert!(!quads.is_match_of_kind(2));
    assert!(!quads.is_match_of_kind(3));
    assert!(quads.is_match_of_kind(0));
    assert!(!quads.is_match_of_kind(5));
    assert!(!quads.is_two_pair());
    let full = hand_of(&[6, 19, 32, 1, 14]);
    assert!(full.is_match_of_kind(3));
    assert!(full.is_match_of_kind(2));
    assert!(!full.is_two_pair());
    let three_pairs = hand_of(&[0, 13, 1, 14, 2, 15]);
    assert!(!three_pairs.is_two_pair());
    assert!(three_pairs.is_match_of_kind(2));
}

#[test]
fn only_five_cards_are_classified() {
    assert_eq!(hand_of(&[]).find_poker_hand(), Err(CardError::NotFullHand));
    assert_eq!(hand_of(&[8, 9, 10, 11]).find_poker_hand(), Err(CardError::NotFullHand));
    let mut six = hand_of(&[12, 11, 10, 9, 8, 7]);
    assert_eq!(six.find_poker_hand(), Err(CardError::NotFullHand));
    assert_eq!(values(&six), vec![12, 11, 10, 9, 8, 7]);
}

#[test]
fn classifying_twice_gives_the_same() {
    let hands: [[usize; 5]; 6] = [
        [12, 9, 8, 11, 10],
        [6, 20, 8, 22, 10],
        [6, 19, 32, 1, 14],
        [6, 19, 33, 46, 12],
        [34, 26, 30, 28, 32],
        [45, 0, 30, 15, 12],
    ];
    for cards in hands.iter() {
        let mut player = hand_of(cards);
        let first = player.find_poker_hand();
        let after_first = values(&player);
        let second = player.find_poker_hand();
        assert_eq!(first, second);
        assert_eq!(values(&player), after_first);
        let mut again = hand_of(cards);
        assert_eq!(again.find_poker_hand(), first);
    }
}

#[test]
fn categories_are_ordered_by_strength() {
    let order = [
        PokerHand::HighCard,
        PokerHand::OnePair,
        PokerHand::TwoPair,
        PokerHand::ThreeKind,
        PokerHand::Straight,
        PokerHand::Flush,
        PokerHand::FullHouse,
        PokerHand::FourKind,
        PokerHand::StraightFlush,
        PokerHand::RoyalFlush,
    ];
    for (i, category) in order.iter().enumerate() {
        assert_eq!(category.get_strength() as usize, i);
    }
    for pair in order.windows(2) {
        assert!(pair[0] < pair[1]);
    }
}
