use cluedo::game::{Card, Character, Room, Weapon};
use cluedo::player::{Guess, Player, ProcessOfEliminationPlayer, RandomPlayer, Response};

#[test]
fn test_poe_new_eliminates_own_hand() {
    let hand = vec![
        Card::Character(Character::SCARLET),
        Card::Weapon(Weapon::PIPE),
        Card::Room(Room::KITCHEN),
    ];
    let agent: ProcessOfEliminationPlayer = Player::new(0, 3, hand);
    let characters = agent.candidate_characters();
    assert_eq!(characters.len(), 5);
    assert!(!characters.contains(&Character::SCARLET));
    assert!(characters.contains(&Character::MUSTARD));
    let weapons = agent.candidate_weapons();
    assert_eq!(weapons.len(), 4);
    assert!(!weapons.contains(&Weapon::PIPE));
    let rooms = agent.candidate_rooms();
    assert_eq!(rooms.len(), 8);
    assert!(!rooms.contains(&Room::KITCHEN));
}

#[test]
fn test_eliminate_card() {
    let mut agent: ProcessOfEliminationPlayer = Player::new(1, 4, vec![]);
    assert_eq!(agent.candidate_weapons().len(), 5);
    agent.eliminate_card(Card::Weapon(Weapon::DAGGER));
    let weapons = agent.candidate_weapons();
    assert_eq!(weapons.len(), 4);
    assert!(!weapons.contains(&Weapon::DAGGER));
    // The other categories are untouched.
    assert_eq!(agent.candidate_characters().len(), 6);
    assert_eq!(agent.candidate_rooms().len(), 9);
    // Striking an already-absent card changes nothing.
    agent.eliminate_card(Card::Weapon(Weapon::DAGGER));
    assert_eq!(agent.candidate_weapons().len(), 4);
}

fn all_cards_except(solution: (Character, Weapon, Room)) -> Vec<Card> {
    let mut hand: Vec<Card> = Vec::new();
    for c in Character::full_list() {
        if c != solution.0 {
            hand.push(c.to_card());
        }
    }
    for w in Weapon::full_list() {
        if w != solution.1 {
            hand.push(w.to_card());
        }
    }
    for r in Room::full_list() {
        if r != solution.2 {
            hand.push(r.to_card());
        }
    }
    hand
}

#[test]
fn test_poe_accuses_once_candidates_are_single() {
    let hand = all_cards_except((Character::PEACOCK, Weapon::REVOLVER, Room::HALL));
    let agent: ProcessOfEliminationPlayer = Player::new(0, 3, hand);
    let guess = agent.make_guess();
    assert!(matches!(
        guess,
        Guess::Accuse(Character::PEACOCK, Weapon::REVOLVER, Room::HALL)
    ));
}

#[test]
fn test_poe_suggests_first_remaining_candidates() {
    let hand = vec![
        Card::Character(Character::SCARLET),
        Card::Character(Character::MUSTARD),
        Card::Weapon(Weapon::PIPE),
        Card::Room(Room::KITCHEN),
        Card::Room(Room::BALLROOM),
    ];
    let agent: ProcessOfEliminationPlayer = Player::new(2, 3, hand);
    let guess = agent.make_guess();
    assert!(matches!(
        guess,
        Guess::Suggest(Character::WHITE, Weapon::ROPE, Room::CONSERVATORY)
    ));
}

#[test]
fn test_poe_eliminates_shown_card() {
    let mut agent: ProcessOfEliminationPlayer = Player::new(0, 3, vec![]);
    let guess = Guess::Suggest(Character::SCARLET, Weapon::ROPE, Room::KITCHEN);
    let response = Some(Response { from: 2, card: Some(Card::Weapon(Weapon::ROPE)) });
    agent.handle_response(0, guess, response);
    assert!(!agent.candidate_weapons().contains(&Weapon::ROPE));
    assert_eq!(agent.candidate_characters().len(), 6);
    assert_eq!(agent.candidate_rooms().len(), 9);
}

#[test]
fn test_poe_collapses_on_own_unrefuted_suggestion() {
    let mut agent: ProcessOfEliminationPlayer = Player::new(1, 3, vec![]);
    let guess = Guess::Suggest(Character::PLUM, Weapon::CANDLESTICK, Room::LOUNGE);
    agent.handle_response(1, guess, None);
    assert_eq!(agent.candidate_characters().as_slice(), &[Character::PLUM]);
    assert_eq!(agent.candidate_weapons().as_slice(), &[Weapon::CANDLESTICK]);
    assert_eq!(agent.candidate_rooms().as_slice(), &[Room::LOUNGE]);
    assert!(matches!(
        agent.make_guess(),
        Guess::Accuse(Character::PLUM, Weapon::CANDLESTICK, Room::LOUNGE)
    ));
}

#[test]
fn test_poe_ignores_others_unrefuted_suggestion() {
    let mut agent: ProcessOfEliminationPlayer = Player::new(1, 3, vec![]);
    let guess = Guess::Suggest(Character::PLUM, Weapon::CANDLESTICK, Room::LOUNGE);
    agent.handle_response(2, guess, None);
    assert_eq!(agent.candidate_characters().len(), 6);
    assert_eq!(agent.candidate_weapons().len(), 5);
    assert_eq!(agent.candidate_rooms().len(), 9);
}

#[test]
fn test_poe_ignores_card_free_response() {
    let mut agent: ProcessOfEliminationPlayer = Player::new(0, 3, vec![]);
    let guess = Guess::Suggest(Character::PLUM, Weapon::CANDLESTICK, Room::LOUNGE);
    agent.handle_response(2, guess, Some(Response { from: 1, card: None }));
    assert_eq!(agent.candidate_characters().len(), 6);
    assert_eq!(agent.candidate_weapons().len(), 5);
    assert_eq!(agent.candidate_rooms().len(), 9);
}

#[test]
fn test_elimination_is_monotone() {
    let mut agent: ProcessOfEliminationPlayer = Player::new(0, 4, vec![
        Card::Character(Character::GREEN),
        Card::Room(Room::STUDY),
    ]);
    let mut sizes = (
        agent.candidate_characters().len(),
        agent.candidate_weapons().len(),
        agent.candidate_rooms().len(),
    );
    let shown = [
        Some(Response { from: 1, card: Some(Card::Character(Character::WHITE)) }),
        Some(Response { from: 2, card: None }),
        Some(Response { from: 3, card: Some(Card::Room(Room::HALL)) }),
        Some(Response { from: 1, card: Some(Card::Weapon(Weapon::ROPE)) }),
    ];
    let guess = Guess::Suggest(Character::WHITE, Weapon::ROPE, Room::HALL);
    for response in shown {
        agent.handle_response(0, guess, response);
        let now = (
            agent.candidate_characters().len(),
            agent.candidate_weapons().len(),
            agent.candidate_rooms().len(),
        );
        assert!(now.0 <= sizes.0 && now.1 <= sizes.1 && now.2 <= sizes.2);
        sizes = now;
    }
}

#[test]
fn test_random_player_always_suggests() {
    let agent: RandomPlayer = Player::new(0, 4, vec![]);
    for _ in 0..200 {
        assert!(matches!(agent.make_guess(), Guess::Suggest(..)));
    }
}
