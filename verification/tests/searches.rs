use cardlib::{best_of, Card, CardError, Hand, PokerHand};

fn hand_of(cards: &[usize]) -> Hand {
    let mut player = Hand::new("tester");
    for c in cards.iter() {
        player.deal_card(Card::new(*c));
    }
    player
}

fn values(hand: &Hand) -> Vec<usize> {
    hand.hand.iter().map(|c| c.get_value()).collect()
}

fn row(cards: &[usize]) -> Vec<Card> {
    cards.iter().map(|c| Card::new(*c)).collect()
}

fn rows(picks: &Vec<Vec<Card>>) -> Vec<Vec<usize>> {
    picks
        .iter()
        .map(|pick| pick.iter().map(|c| c.get_value()).collect())
        .collect()
}

#[test]
fn flush_among_seven() {
    let player = hand_of(&[26, 1, 28, 30, 48, 32, 34]);
    assert_eq!(player.five_card_subsets().len(), 21);
    let (best, found) = player.find_best_five().unwrap();
    assert_eq!(found, PokerHand::Flush);
    assert_eq!(values(&best), vec![26, 28, 30, 32, 34]);
    assert_eq!(best.get_name(), "tester");
    assert_eq!(values(&player), vec![26, 1, 28, 30, 48, 32, 34]);
}

#[test]
fn seven_cards_give_twenty_one_picks() {
    let player = hand_of(&[35, 13, 12, 34, 33, 28, 26]);
    let picks = rows(&player.five_card_subsets());
    assert_eq!(picks.len(), 21);
    assert_eq!(picks[0], vec![12, 13, 26, 28, 33]);
    assert_eq!(picks[1], vec![12, 13, 26, 28, 34]);
    assert_eq!(picks[20], vec![26, 28, 33, 34, 35]);
    for pick in picks.iter() {
        assert_eq!(pick.len(), 5);
        for pair in pick.windows(2) {
            assert!(pair[0] < pair[1]);
        }
    }
    for (i, a) in picks.iter().enumerate() {
        for b in picks.iter().skip(i + 1) {
            assert_ne!(a, b);
        }
    }
}

#[test]
fn six_cards_give_six_picks() {
    let player = hand_of(&[5, 4, 3, 2, 1, 0]);
    assert_eq!(
        rows(&player.five_card_subsets()),
        vec![
            vec![0, 1, 2, 3, 4],
            vec![0, 1, 2, 3, 5],
            vec![0, 1, 2, 4, 5],
            vec![0, 1, 3, 4, 5],
            vec![0, 2, 3, 4, 5],
            vec![1, 2, 3, 4, 5],
        ]
    );
}

#[test]
fn five_cards_give_one_pick() {
    let player = hand_of(&[6, 20, 8, 22, 10]);
    assert_eq!(rows(&player.five_card_subsets()), vec![vec![6, 20, 8, 22, 10]]);
    let (best, found) = player.find_best_five().unwrap();
    assert_eq!(found, PokerHand::Straight);
    assert_eq!(values(&best), vec![6, 8, 10, 20, 22]);
}

#[test]
fn five_paired_cards_stay_as_dealt() {
    let player = hand_of(&[6, 19, 32, 1, 14]);
    let (best, found) = player.find_best_five().unwrap();
    assert_eq!(found, PokerHand::FullHouse);
    assert_eq!(values(&best), vec![6, 19, 32, 1, 14]);
}

#[test]
fn fewer_than_five_cards_give_no_pick() {
    assert!(hand_of(&[]).five_card_subsets().is_empty());
    assert!(hand_of(&[1, 2, 3, 4]).five_card_subsets().is_empty());
    assert_eq!(hand_of(&[]).find_best_five().err(), Some(CardError::NotFullHand));
    assert_eq!(
        hand_of(&[1, 2, 3, 4]).find_best_five().err(),
        Some(CardError::NotFullHand)
    );
}

#[test]
fn five_hearts_among_seven() {
    let player = hand_of(&[26, 28, 33, 34, 12, 13, 35]);
    let (best, found) = player.find_best_five().unwrap();
    assert_eq!(found, PokerHand::Flush);
    assert_eq!(values(&best), vec![26, 28, 33, 34, 35]);
}

#[test]
fn best_of_seven_with_a_pair() {
    let player = hand_of(&[0, 13, 28, 33, 47, 5, 22]);
    let (best, found) = player.find_best_five().unwrap();
    assert_eq!(found, PokerHand::OnePair);
    assert_eq!(values(&best), vec![0, 5, 13, 22, 28]);
}

#[test]
fn quads_among_seven() {
    let player = hand_of(&[0, 13, 26, 39, 5, 18, 31]);
    let (best, found) = player.find_best_five().unwrap();
    assert_eq!(found, PokerHand::FourKind);
    assert_eq!(values(&best), vec![0, 5, 13, 26, 39]);
}

#[test]
fn royal_flush_among_seven() {
    let player = hand_of(&[51, 3, 50, 49, 20, 48, 47]);
    let (best, found) = player.find_best_five().unwrap();
    assert_eq!(found, PokerHand::RoyalFlush);
    assert_eq!(values(&best), vec![47, 48, 49, 50, 51]);
}

#[test]
fn first_of_equal_picks_wins() {
    let picks = vec![
        row(&[0, 15, 30, 45, 12]),
        row(&[26, 28, 30, 32, 34]),
        row(&[0, 13, 27, 41, 5]),
        row(&[39, 41, 43, 45, 47]),
        row(&[3, 17, 31, 45, 7]),
    ];
    let (best, found) = best_of("lin", &picks).unwrap();
    assert_eq!(found, PokerHand::Flush);
    assert_eq!(values(&best), vec![26, 28, 30, 32, 34]);
    assert_eq!(best.get_name(), "lin");
}

#[test]
fn all_high_cards_give_the_first() {
    let picks = vec![row(&[45, 0, 30, 15, 12]), row(&[1, 16, 31, 46, 12])];
    let (best, found) = best_of("lin", &picks).unwrap();
    assert_eq!(found, PokerHand::HighCard);
    assert_eq!(values(&best), vec![0, 12, 15, 30, 45]);
}

#[test]
fn a_pick_of_another_size_fails() {
    let short = vec![row(&[26, 28, 30, 32, 34]), row(&[1, 2, 3, 4])];
    assert_eq!(best_of("lin", &short).err(), Some(CardError::NotFullHand));
    let long = vec![row(&[1, 2, 3, 4, 5, 6]), row(&[26, 28, 30, 32, 34])];
    assert_eq!(best_of("lin", &long).err(), Some(CardError::NotFullHand));
}

#[test]
fn no_pick_fails() {
    let none: Vec<Vec<Card>> = Vec::new();
    assert_eq!(best_of("lin", &none).err(), Some(CardError::NotFullHand));
}
