use cluedo::game::{
    resolve_suggestion, response_for_seat, Card, Character, Game, GameError, Room, Weapon,
    TURN_LIMIT,
};
use cluedo::player::{Guess, Player, ProcessOfEliminationPlayer, Response};

#[test]
fn test_termination_with_eliminator_injected() {
    for n in 3..=6u8 {
        for _ in 0..250 {
            let game = Game::new(n).unwrap();
            let result = game.play::<ProcessOfEliminationPlayer>();
            let result = result.expect("a table with an eliminating agent ends in an accusation");
            assert!(result.number_of_turns <= 500);
        }
    }
}

/// A three-seat table whose solution is the first member of each roster. Seat
/// 0 holds six cards, none of them a solution card; the two other seats hold
/// the rest of the deck.
fn fixed_table() -> (Game, Vec<Card>) {
    let hand0 = vec![
        Card::Character(Character::MUSTARD),
        Card::Character(Character::WHITE),
        Card::Character(Character::PLUM),
        Card::Character(Character::PEACOCK),
        Card::Character(Character::GREEN),
        Card::Weapon(Weapon::ROPE),
    ];
    let hand1 = vec![
        Card::Weapon(Weapon::DAGGER),
        Card::Weapon(Weapon::REVOLVER),
        Card::Weapon(Weapon::CANDLESTICK),
        Card::Room(Room::BALLROOM),
        Card::Room(Room::CONSERVATORY),
        Card::Room(Room::BILLIARD_ROOM),
    ];
    let hand2 = vec![
        Card::Room(Room::LIBRARY),
        Card::Room(Room::STUDY),
        Card::Room(Room::HALL),
        Card::Room(Room::LOUNGE),
        Card::Room(Room::DINING_ROOM),
    ];
    let game = Game {
        solution: (Character::SCARLET, Weapon::PIPE, Room::KITCHEN),
        hands: vec![hand0.clone(), hand1, hand2],
    };
    (game, hand0)
}

#[test]
fn test_scenario_seat_zero_deduces_solution() {
    let (game, hand0) = fixed_table();
    let mut agent: ProcessOfEliminationPlayer = Player::new(0, 3, hand0);
    // After eliminating its own hand, seat 0 still holds the solution members
    // as candidates.
    assert!(agent.candidate_characters().contains(&Character::SCARLET));
    assert!(agent.candidate_weapons().contains(&Weapon::PIPE));
    assert!(agent.candidate_rooms().contains(&Room::KITCHEN));
    // Drive seat 0's own turns until it accuses.
    let mut accusation = None;
    for _ in 0..100 {
        let guess = agent.make_guess();
        match guess {
            Guess::Accuse(c, w, r) => {
                accusation = Some((c, w, r));
                break;
            }
            Guess::Suggest(c, w, r) => {
                let resolution = resolve_suggestion(&game.hands, 0, c, w, r);
                let response = response_for_seat(0, 0, resolution);
                agent.handle_response(0, guess, response);
            }
        }
    }
    assert_eq!(accusation, Some((Character::SCARLET, Weapon::PIPE, Room::KITCHEN)));
}

#[test]
fn test_scenario_with_refutations() {
    // The solution is the last member of each roster, so seat 0's early
    // suggestions are refuted and struck one at a time before the unrefuted
    // one collapses the candidate sets.
    let hand0 = vec![
        Card::Room(Room::KITCHEN),
        Card::Room(Room::BALLROOM),
        Card::Character(Character::SCARLET),
        Card::Character(Character::MUSTARD),
        Card::Weapon(Weapon::PIPE),
        Card::Weapon(Weapon::ROPE),
    ];
    let hand1 = vec![
        Card::Character(Character::WHITE),
        Card::Character(Character::PLUM),
        Card::Weapon(Weapon::DAGGER),
        Card::Room(Room::CONSERVATORY),
        Card::Room(Room::BILLIARD_ROOM),
        Card::Room(Room::LIBRARY),
    ];
    let hand2 = vec![
        Card::Character(Character::PEACOCK),
        Card::Weapon(Weapon::REVOLVER),
        Card::Room(Room::STUDY),
        Card::Room(Room::HALL),
        Card::Room(Room::LOUNGE),
    ];
    let hands = vec![hand0.clone(), hand1, hand2];
    let mut agent: ProcessOfEliminationPlayer = Player::new(0, 3, hand0);
    let mut accusation = None;
    let mut suggestions = 0;
    for _ in 0..100 {
        let guess = agent.make_guess();
        match guess {
            Guess::Accuse(c, w, r) => {
                accusation = Some((c, w, r));
                break;
            }
            Guess::Suggest(c, w, r) => {
                suggestions += 1;
                let resolution = resolve_suggestion(&hands, 0, c, w, r);
                let response = response_for_seat(0, 0, resolution);
                agent.handle_response(0, guess, response);
            }
        }
    }
    assert!(suggestions > 1);
    assert_eq!(
        accusation,
        Some((Character::GREEN, Weapon::CANDLESTICK, Room::DINING_ROOM))
    );
}

/// A test-only agent that accuses the same triple on its first turn.
struct FixedAccuser {
    c: Character,
    w: Weapon,
    r: Room,
}

impl Player for FixedAccuser {
    fn new(_position: usize, _number_of_players: usize, _hand: Vec<Card>) -> Self {
        FixedAccuser { c: Character::MUSTARD, w: Weapon::PIPE, r: Room::KITCHEN }
    }

    fn make_guess(&self) -> Guess {
        Guess::Accuse(self.c, self.w, self.r)
    }

    fn handle_response(&mut self, _guess_from: usize, _guess: Guess, _response: Option<Response>) {
    }
}

#[test]
fn test_incorrect_accusation_is_fatal() {
    let (game, _) = fixed_table();
    // Seat 0 acts first and accuses (MUSTARD, PIPE, KITCHEN): wrong suspect.
    let result = game.play_from::<FixedAccuser>(0);
    match result {
        Err(GameError::IncorrectAccusation { guessed, solution }) => {
            assert_eq!(guessed, (Character::MUSTARD, Weapon::PIPE, Room::KITCHEN));
            assert_eq!(solution, (Character::SCARLET, Weapon::PIPE, Room::KITCHEN));
        }
        other => panic!("expected an incorrect-accusation error, got {:?}", other),
    }
}

/// A test-only agent that accuses the known fixed solution on its first turn.
struct SolutionAccuser {}

impl Player for SolutionAccuser {
    fn new(_position: usize, _number_of_players: usize, _hand: Vec<Card>) -> Self {
        SolutionAccuser {}
    }

    fn make_guess(&self) -> Guess {
        Guess::Accuse(Character::SCARLET, Weapon::PIPE, Room::KITCHEN)
    }

    fn handle_response(&mut self, _guess_from: usize, _guess: Guess, _response: Option<Response>) {
    }
}

#[test]
fn test_immediate_correct_accusation_wins() {
    let (game, _) = fixed_table();
    let result = game.play_from::<SolutionAccuser>(0).unwrap();
    assert!(result.injected_agent_won);
    assert_eq!(result.number_of_turns, 0);
}

/// A test-only agent that suggests forever and never accuses.
struct NeverAccuser {}

impl Player for NeverAccuser {
    fn new(_position: usize, _number_of_players: usize, _hand: Vec<Card>) -> Self {
        NeverAccuser {}
    }

    fn make_guess(&self) -> Guess {
        Guess::Suggest(Character::SCARLET, Weapon::PIPE, Room::KITCHEN)
    }

    fn handle_response(&mut self, _guess_from: usize, _guess: Guess, _response: Option<Response>) {
    }
}

#[test]
fn test_game_ends_even_without_accusations() {
    // With the injected seat never accusing, each game either ends when an
    // eliminating opponent finds the solution, or runs into the turn cap.
    let mut saw_turn_limit = false;
    for _ in 0..50 {
        let game = Game::new(3).unwrap();
        match game.play::<NeverAccuser>() {
            Ok(result) => {
                assert!(!result.injected_agent_won);
                assert!(result.number_of_turns < TURN_LIMIT);
            }
            Err(GameError::TurnLimitReached) => {
                saw_turn_limit = true;
            }
            Err(other) => panic!("unexpected error: {:?}", other),
        }
    }
    assert!(saw_turn_limit);
}
