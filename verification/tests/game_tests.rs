use cluedo::game::{Card, Character, Game, GameError, GameResult, Room, Weapon};
use cluedo::game::{deal_round_robin, resolve_suggestion, response_for_seat};
use cluedo::player::ProcessOfEliminationPlayer;

fn full_deck_cards() -> Vec<Card> {
    let mut deck: Vec<Card> = Vec::new();
    for c in Character::full_list() {
        deck.push(c.to_card());
    }
    for w in Weapon::full_list() {
        deck.push(w.to_card());
    }
    for r in Room::full_list() {
        deck.push(r.to_card());
    }
    deck
}

#[test]
fn test_game_finishes() {
    let result = Game::new(6).unwrap().play::<ProcessOfEliminationPlayer>();
    assert!(result.is_ok());
}

#[test]
fn test_new_rejects_bad_player_counts() {
    assert!(matches!(Game::new(0), Err(GameError::InvalidPlayerCount(0))));
    assert!(matches!(Game::new(2), Err(GameError::InvalidPlayerCount(2))));
    assert!(matches!(Game::new(7), Err(GameError::InvalidPlayerCount(7))));
    assert!(Game::new(3).is_ok());
    assert!(Game::new(6).is_ok());
}

#[test]
fn test_deal_partition() {
    for n in 3..=6u8 {
        let game = Game::new(n).unwrap();
        assert_eq!(game.hands.len(), n as usize);
        let mut dealt: Vec<Card> = Vec::new();
        for hand in &game.hands {
            for card in hand {
                dealt.push(*card);
            }
        }
        dealt.push(game.solution.0.to_card());
        dealt.push(game.solution.1.to_card());
        dealt.push(game.solution.2.to_card());
        let deck = full_deck_cards();
        assert_eq!(dealt.len(), deck.len());
        for card in &deck {
            let occurrences = dealt.iter().filter(|d| *d == card).count();
            assert_eq!(occurrences, 1);
        }
    }
}

#[test]
fn test_solution_never_dealt() {
    for n in 3..=6u8 {
        let game = Game::new(n).unwrap();
        for hand in &game.hands {
            assert!(!hand.contains(&game.solution.0.to_card()));
            assert!(!hand.contains(&game.solution.1.to_card()));
            assert!(!hand.contains(&game.solution.2.to_card()));
        }
    }
}

#[test]
fn test_hand_size_fairness() {
    for n in 3..=6u8 {
        let game = Game::new(n).unwrap();
        let max = game.hands.iter().map(|h| h.len()).max().unwrap();
        let min = game.hands.iter().map(|h| h.len()).min().unwrap();
        assert!(max - min <= 1);
    }
}

#[test]
fn test_resolve_suggestion_finds_first_clockwise() {
    let hands: Vec<Vec<Card>> = vec![
        vec![Card::Character(Character::WHITE)],
        vec![Card::Room(Room::BALLROOM)],
        vec![Card::Character(Character::MUSTARD)],
    ];
    // Seat 1 is reached before seat 2, and wins even though seat 2 holds the
    // higher-priority character card.
    let res = resolve_suggestion(&hands, 0, Character::MUSTARD, Weapon::ROPE, Room::BALLROOM);
    assert_eq!(res, Some((1, Card::Room(Room::BALLROOM))));
}

#[test]
fn test_resolve_suggestion_wraps_around() {
    let hands: Vec<Vec<Card>> = vec![
        vec![Card::Character(Character::MUSTARD)],
        vec![Card::Room(Room::STUDY)],
        vec![Card::Weapon(Weapon::PIPE)],
    ];
    // Suggester sits at seat 1: the scan visits seat 2, then wraps to seat 0.
    let res = resolve_suggestion(&hands, 1, Character::MUSTARD, Weapon::ROPE, Room::BALLROOM);
    assert_eq!(res, Some((0, Card::Character(Character::MUSTARD))));
}

#[test]
fn test_resolve_suggestion_card_priority() {
    let hands: Vec<Vec<Card>> = vec![
        vec![],
        vec![
            Card::Room(Room::BALLROOM),
            Card::Weapon(Weapon::ROPE),
            Card::Character(Character::MUSTARD),
        ],
        vec![],
    ];
    // One seat holds all three: the character card is shown first.
    let res = resolve_suggestion(&hands, 0, Character::MUSTARD, Weapon::ROPE, Room::BALLROOM);
    assert_eq!(res, Some((1, Card::Character(Character::MUSTARD))));
}

#[test]
fn test_resolve_suggestion_ignores_suggester_hand() {
    let hands: Vec<Vec<Card>> = vec![
        vec![Card::Character(Character::MUSTARD), Card::Weapon(Weapon::ROPE)],
        vec![Card::Room(Room::STUDY)],
        vec![Card::Weapon(Weapon::PIPE)],
    ];
    // Only the suggester holds any of the three named cards: no response.
    let res = resolve_suggestion(&hands, 0, Character::MUSTARD, Weapon::ROPE, Room::BALLROOM);
    assert_eq!(res, None);
}

#[test]
fn test_response_privacy() {
    let resolution = Some((2usize, Card::Weapon(Weapon::ROPE)));
    let suggester = 0usize;
    let mut cards_shown = 0;
    for seat in 0..4usize {
        let response = response_for_seat(seat, suggester, resolution);
        let response = response.expect("a resolved suggestion reaches every seat");
        assert_eq!(response.from, 2);
        if seat == suggester {
            assert_eq!(response.card, Some(Card::Weapon(Weapon::ROPE)));
        } else {
            assert_eq!(response.card, None);
        }
        if response.card.is_some() {
            cards_shown += 1;
        }
    }
    assert_eq!(cards_shown, 1);
}

#[test]
fn test_response_for_seat_no_match() {
    for seat in 0..4usize {
        assert_eq!(response_for_seat(seat, 0, None), None);
    }
}

#[test]
fn test_win_attribution() {
    let won = GameResult::new(2, 2, 10);
    assert!(won.injected_agent_won);
    assert_eq!(won.number_of_turns, 10);
    let lost = GameResult::new(1, 2, 7);
    assert!(!lost.injected_agent_won);
    assert_eq!(lost.number_of_turns, 7);
}

#[test]
fn test_deal_round_robin_positions() {
    let deck = vec![
        Card::Character(Character::SCARLET),
        Card::Character(Character::MUSTARD),
        Card::Weapon(Weapon::PIPE),
        Card::Weapon(Weapon::ROPE),
        Card::Room(Room::KITCHEN),
        Card::Room(Room::BALLROOM),
        Card::Room(Room::STUDY),
    ];
    let hands = deal_round_robin(&deck, 3);
    assert_eq!(hands.len(), 3);
    assert_eq!(hands[0], vec![deck[0], deck[3], deck[6]]);
    assert_eq!(hands[1], vec![deck[1], deck[4]]);
    assert_eq!(hands[2], vec![deck[2], deck[5]]);
}

#[test]
fn test_to_card() {
    assert_eq!(Character::SCARLET.to_card(), Card::Character(Character::SCARLET));
    assert_eq!(Weapon::PIPE.to_card(), Card::Weapon(Weapon::PIPE));
    assert_eq!(Room::KITCHEN.to_card(), Card::Room(Room::KITCHEN));
}

#[test]
fn test_full_lists() {
    assert_eq!(Character::full_list().len(), 6);
    assert_eq!(Weapon::full_list().len(), 5);
    assert_eq!(Room::full_list().len(), 9);
    assert_eq!(full_deck_cards().len(), 20);
}
