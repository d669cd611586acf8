use cardlib::{Card, CardError, Hand};

fn hand_of(name: &str, cards: &[usize]) -> Hand {
    let mut player = Hand::new(name);
    for c in cards.iter() {
        player.deal_card(Card::new(*c));
    }
    player
}

fn values(hand: &Hand) -> Vec<usize> {
    hand.hand.iter().map(|c| c.get_value()).collect()
}

#[test]
fn hand_sorted() {
    let mut player = Hand::new("tester");
    let cards: Vec<usize> = vec![5, 22, 4, 33, 48];
    for c in cards.iter() {
        player.deal_card(Card::new(*c));
    }
    player.sort_by_suit();
    assert_eq!(
        player.hand,
        vec![
            Card::new(4),
            Card::new(5),
            Card::new(22),
            Card::new(33),
            Card::new(48),
        ]
    );
}

#[test]
fn new_hand_is_empty() {
    let player = Hand::new("tim");
    assert_eq!(player.get_name(), "tim");
    assert!(player.hand.is_empty());
    assert_eq!(player.hi_card(), 0);
}

#[test]
fn cards_are_dealt_to_the_end() {
    let mut player = Hand::new("lin");
    player.deal_card(Card::new(30));
    player.deal_card(Card::new(2));
    player.deal_card(Card::new(30));
    assert_eq!(values(&player), vec![30, 2, 30]);
    assert_eq!(player.get_name(), "lin");
}

#[test]
fn sorting_twice_changes_nothing_more() {
    let mut player = hand_of("tester", &[51, 0, 13, 12, 26, 13, 7]);
    player.sort_by_suit();
    assert_eq!(values(&player), vec![0, 7, 12, 13, 13, 26, 51]);
    let once = values(&player);
    player.sort_by_suit();
    assert_eq!(values(&player), once);
    assert_eq!(player.get_name(), "tester");
}

#[test]
fn sorting_an_empty_hand() {
    let mut player = Hand::new("tester");
    player.sort_by_suit();
    assert!(player.hand.is_empty());
}

#[test]
fn discard_takes_the_named_card() {
    let mut player = hand_of("tester", &[5, 22, 4, 33, 48]);
    assert_eq!(player.discard("6c"), Ok(Card::new(4)));
    assert_eq!(values(&player), vec![5, 22, 33, 48]);
    assert_eq!(player.discard("js"), Ok(Card::new(48)));
    assert_eq!(values(&player), vec![5, 22, 33]);
    assert_eq!(player.discard("7c"), Ok(Card::new(5)));
    assert_eq!(values(&player), vec![22, 33]);
}

#[test]
fn discard_takes_the_first_of_two() {
    let mut player = hand_of("tester", &[1, 34, 2, 34, 3]);
    assert_eq!(player.discard("10h"), Ok(Card::new(34)));
    assert_eq!(values(&player), vec![1, 2, 34, 3]);
    assert_eq!(player.discard("10h"), Ok(Card::new(34)));
    assert_eq!(values(&player), vec![1, 2, 3]);
    assert_eq!(player.discard("10h"), Err(CardError::CardNotFound));
    assert_eq!(values(&player), vec![1, 2, 3]);
}

#[test]
fn discard_of_a_card_not_held() {
    let mut player = hand_of("tester", &[5, 22]);
    assert_eq!(player.discard("as"), Err(CardError::CardNotFound));
    assert_eq!(values(&player), vec![5, 22]);
    let mut nobody = Hand::new("nobody");
    assert_eq!(nobody.discard("2c"), Err(CardError::CardNotFound));
}

#[test]
fn discard_of_no_id() {
    let mut player = hand_of("tester", &[5, 22]);
    assert_eq!(player.discard("7"), Err(CardError::NotCardId));
    assert_eq!(player.discard("seven of clubs"), Err(CardError::NotCardId));
    assert_eq!(player.discard(""), Err(CardError::NotCardId));
    assert_eq!(values(&player), vec![5, 22]);
}

#[test]
fn high_card_is_the_highest_rank() {
    assert_eq!(hand_of("a", &[0]).hi_card(), 2);
    assert_eq!(hand_of("a", &[5, 22, 4, 33, 48]).hi_card(), 11);
    assert_eq!(hand_of("a", &[12, 0, 13]).hi_card(), 14);
    assert_eq!(hand_of("a", &[39, 26, 51, 1]).hi_card(), 14);
    assert_eq!(hand_of("a", &[20, 7, 33]).hi_card(), 9);
}

#[test]
fn hand_written_out() {
    let player = hand_of("tim", &[5, 34]);
    assert_eq!(player.to_string(), "tim\n-Seven of Clubs\n-Ten of Hearts\n");
    assert_eq!(Hand::new("lin").to_string(), "lin\n");
}
