//! The card model and the turn engine of a Clue-style deduction game: a
//! hidden solution triple, hands dealt round-robin, and a seated loop that
//! resolves suggestions and accusations.

use vstd::prelude::*;
use vstd::multiset::Multiset;
use crate::rng;
use crate::player::{belief_after_response, lemma_elimination_retains_solution, BeliefView, Guess, Player, ProcessOfEliminationPlayer, RandomPlayer, Response};

verus! {

broadcast use vstd::seq_lib::group_to_multiset_ensures;

#[derive(Debug, Eq, PartialEq, Copy, Clone, Structural)]
#[allow(non_camel_case_types)]
pub enum Character {
    SCARLET,
    MUSTARD,
    WHITE,
    PLUM,
    PEACOCK,
    GREEN,
}

#[derive(Debug, Eq, PartialEq, Copy, Clone, Structural)]
#[allow(non_camel_case_types)]
pub enum Weapon {
    PIPE,
    ROPE,
    DAGGER,
    REVOLVER,
    CANDLESTICK,
}

#[derive(Debug, Eq, PartialEq, Copy, Clone, Structural)]
#[allow(non_camel_case_types)]
pub enum Room {
    KITCHEN,
    BALLROOM,
    CONSERVATORY,
    BILLIARD_ROOM,
    LIBRARY,
    STUDY,
    HALL,
    LOUNGE,
    DINING_ROOM,
}

#[derive(Debug, Eq, PartialEq, Copy, Clone, Structural)]
pub enum Card {
    Character(Character),
    Weapon(Weapon),
    Room(Room),
}

/// The full roster of characters, in declaration order.
pub open spec fn all_characters() -> Seq<Character> {
    seq![
        Character::SCARLET,
        Character::MUSTARD,
        Character::WHITE,
        Character::PLUM,
        Character::PEACOCK,
        Character::GREEN,
    ]
}

/// The full roster of weapons, in declaration order.
pub open spec fn all_weapons() -> Seq<Weapon> {
    seq![
        Weapon::PIPE,
        Weapon::ROPE,
        Weapon::DAGGER,
        Weapon::REVOLVER,
        Weapon::CANDLESTICK,
    ]
}

/// The full roster of rooms, in declaration order.
pub open spec fn all_rooms() -> Seq<Room> {
    seq![
        Room::KITCHEN,
        Room::BALLROOM,
        Room::CONSERVATORY,
        Room::BILLIARD_ROOM,
        Room::LIBRARY,
        Room::STUDY,
        Room::HALL,
        Room::LOUNGE,
        Room::DINING_ROOM,
    ]
}

pub open spec fn char_card() -> spec_fn(Character) -> Card {
    |c: Character| Card::Character(c)
}

pub open spec fn weapon_card() -> spec_fn(Weapon) -> Card {
    |w: Weapon| Card::Weapon(w)
}

pub open spec fn room_card() -> spec_fn(Room) -> Card {
    |r: Room| Card::Room(r)
}

/// The full deck: every character, weapon and room card exactly once.
pub open spec fn full_deck() -> Seq<Card> {
    all_characters().map_values(char_card()) + all_weapons().map_values(weapon_card())
        + all_rooms().map_values(room_card())
}

impl Character {
    /// Every character, in declaration order.
    pub fn full_list() -> (r: Vec<Character>)
        ensures
            r@ == all_characters(),
    {
        let v = vec![
            Character::SCARLET,
            Character::MUSTARD,
            Character::WHITE,
            Character::PLUM,
            Character::PEACOCK,
            Character::GREEN,
        ];
        proof {
            assert(v@ =~= all_characters());
        }
        v
    }

    /// Every character, in a uniformly random order.
    pub(crate) fn shuffled_list() -> (r: Vec<Character>)
        ensures
            r@.to_multiset() == all_characters().to_multiset(),
    {
        let mut out = Character::full_list();
        rng::shuffle(&mut out);
        out
    }

    pub fn to_card(&self) -> (c: Card)
        ensures
            c == Card::Character(*self),
    {
        Card::Character(*self)
    }
}

impl Weapon {
    /// Every weapon, in declaration order.
    pub fn full_list() -> (r: Vec<Weapon>)
        ensures
            r@ == all_weapons(),
    {
        let v = vec![
            Weapon::PIPE,
            Weapon::ROPE,
            Weapon::DAGGER,
            Weapon::REVOLVER,
            Weapon::CANDLESTICK,
        ];
        proof {
            assert(v@ =~= all_weapons());
        }
        v
    }

    /// Every weapon, in a uniformly random order.
    pub(crate) fn shuffled_list() -> (r: Vec<Weapon>)
        ensures
            r@.to_multiset() == all_weapons().to_multiset(),
    {
        let mut out = Weapon::full_list();
        rng::shuffle(&mut out);
        out
    }

    pub fn to_card(&self) -> (c: Card)
        ensures
            c == Card::Weapon(*self),
    {
        Card::Weapon(*self)
    }
}

impl Room {
    /// Every room, in declaration order.
    pub fn full_list() -> (r: Vec<Room>)
        ensures
            r@ == all_rooms(),
    {
        let v = vec![
            Room::KITCHEN,
            Room::BALLROOM,
            Room::CONSERVATORY,
            Room::BILLIARD_ROOM,
            Room::LIBRARY,
            Room::STUDY,
            Room::HALL,
            Room::LOUNGE,
            Room::DINING_ROOM,
        ];
        proof {
            assert(v@ =~= all_rooms());
        }
        v
    }

    /// Every room, in a uniformly random order.
    pub(crate) fn shuffled_list() -> (r: Vec<Room>)
        ensures
            r@.to_multiset() == all_rooms().to_multiset(),
    {
        let mut out = Room::full_list();
        rng::shuffle(&mut out);
        out
    }

    pub fn to_card(&self) -> (c: Card)
        ensures
            c == Card::Room(*self),
    {
        Card::Room(*self)
    }
}

/// The views of a table of hands, one card sequence per seat.
pub open spec fn views_of(hands: Seq<Vec<Card>>) -> Seq<Seq<Card>> {
    hands.map_values(|h: Vec<Card>| h@)
}

/// The multiset union of a table of hands.
pub open spec fn hands_sum(hands: Seq<Seq<Card>>) -> Multiset<Card>
    decreases hands.len(),
{
    if hands.len() == 0 {
        Multiset::empty()
    } else {
        hands[0].to_multiset().add(hands_sum(hands.drop_first()))
    }
}

proof fn lemma_hands_sum_push(hands: Seq<Seq<Card>>, hand: Seq<Card>)
    ensures
        hands_sum(hands.push(hand)) == hands_sum(hands).add(hand.to_multiset()),
    decreases hands.len(),
{
    broadcast use vstd::multiset::group_multiset_axioms;

    if hands.len() == 0 {
        assert(hands.push(hand)[0] == hand);
        assert(hands.push(hand).drop_first() =~= Seq::<Seq<Card>>::empty());
        assert(hands_sum(Seq::<Seq<Card>>::empty()) == Multiset::<Card>::empty());
        assert(hands_sum(hands.push(hand)) == hand.to_multiset().add(Multiset::<Card>::empty()));
        assert(hand.to_multiset().add(Multiset::<Card>::empty()) =~= Multiset::<Card>::empty().add(
            hand.to_multiset(),
        ));
    } else {
        lemma_hands_sum_push(hands.drop_first(), hand);
        assert(hands.push(hand).drop_first() =~= hands.drop_first().push(hand));
        assert(hands[0].to_multiset().add(hands_sum(hands.drop_first()).add(hand.to_multiset()))
            =~= hands_sum(hands).add(hand.to_multiset()));
    }
}

/// Appending a card to one hand adds that card to the union of all hands.
proof fn lemma_hands_sum_deal(hands: Seq<Seq<Card>>, j: int, card: Card)
    requires
        0 <= j < hands.len(),
    ensures
        hands_sum(hands.update(j, hands[j].push(card))) == hands_sum(hands).insert(card),
    decreases hands.len(),
{
    broadcast use vstd::multiset::group_multiset_axioms;

    let updated = hands.update(j, hands[j].push(card));
    if j == 0 {
        assert(updated.drop_first() =~= hands.drop_first());
        assert(hands[0].push(card).to_multiset() == hands[0].to_multiset().insert(card));
        assert(hands[0].to_multiset().insert(card).add(hands_sum(hands.drop_first()))
            =~= hands_sum(hands).insert(card));
    } else {
        assert(updated.drop_first() =~= hands.drop_first().update(j - 1, hands[j].push(card)));
        assert(hands.drop_first()[j - 1] == hands[j]);
        lemma_hands_sum_deal(hands.drop_first(), j - 1, card);
        assert(hands[0].to_multiset().add(hands_sum(hands.drop_first()).insert(card))
            =~= hands_sum(hands).insert(card));
    }
}

/// Deal a deck round-robin: seat `i` receives the deck cards at positions
/// `i`, `i + n`, `i + 2n`, and so on. Together the hands hold the whole deck
/// exactly once, and no two hands differ in size by more than one card.
pub fn deal_round_robin(deck: &Vec<Card>, number_of_players: usize) -> (hands: Vec<Vec<Card>>)
    requires
        1 <= number_of_players,
    ensures
        hands@.len() == number_of_players as int,
        hands_sum(views_of(hands@)) == deck@.to_multiset(),
        forall|a: int, b: int|
            0 <= a < hands@.len() && 0 <= b < hands@.len() ==> #[trigger] hands@[a]@.len()
                <= #[trigger] hands@[b]@.len() + 1,
        forall|a: int, t: int|
            0 <= a < hands@.len() && 0 <= t < hands@[a]@.len() ==> #[trigger] hands@[a]@[t]
                == deck@[t * (number_of_players as int) + a],
{
    broadcast use vstd::multiset::group_multiset_axioms;

    let n = number_of_players;
    let mut hands: Vec<Vec<Card>> = Vec::new();
    while hands.len() < n
        invariant
            hands@.len() <= n as int,
            forall|j: int| 0 <= j < hands@.len() ==> #[trigger] hands@[j]@.len() == 0,
            hands_sum(views_of(hands@)) == Multiset::<Card>::empty(),
        decreases n - hands.len(),
    {
        let empty_hand: Vec<Card> = Vec::new();
        proof {
            assert(views_of(hands@.push(empty_hand)) =~= views_of(hands@).push(empty_hand@));
            lemma_hands_sum_push(views_of(hands@), empty_hand@);
            assert forall|y: Card| #[trigger] empty_hand@.to_multiset().count(y) == 0 by {
                assert(!empty_hand@.contains(y));
            };
            assert(hands_sum(views_of(hands@)).add(empty_hand@.to_multiset())
                =~= hands_sum(views_of(hands@)));
        }
        hands.push(empty_hand);
    }
    let ghost mut q: int = 0;
    let mut seat: usize = 0;
    let mut i: usize = 0;
    while i < deck.len()
        invariant
            hands@.len() == n as int,
            1 <= n,
            seat < n,
            i <= deck.len(),
            q >= 0,
            i as int == q * (n as int) + (seat as int),
            forall|j: int|
                0 <= j < n as int ==> #[trigger] hands@[j]@.len() == q + (if j < seat as int {
                    1int
                } else {
                    0int
                }),
            forall|a: int, t: int|
                0 <= a < n as int && 0 <= t < hands@[a]@.len() ==> #[trigger] hands@[a]@[t]
                    == deck@[t * (n as int) + a],
            hands_sum(views_of(hands@)) == deck@.take(i as int).to_multiset(),
        decreases deck.len() - i,
    {
        let card = deck[i];
        let ghost old_hands = hands@;
        hands[seat].push(card);
        proof {
            assert(hands@[seat as int]@ =~= old_hands[seat as int]@.push(card));
            assert(views_of(hands@) =~= views_of(old_hands).update(
                seat as int,
                old_hands[seat as int]@.push(card),
            ));
            lemma_hands_sum_deal(views_of(old_hands), seat as int, card);
            assert(deck@.take(i as int + 1) =~= deck@.take(i as int).push(deck@[i as int]));
        }
        i += 1;
        if seat + 1 == n {
            seat = 0;
            proof {
                assert((q + 1) * (n as int) == q * (n as int) + (n as int)) by (nonlinear_arith);
                q = q + 1;
            }
        } else {
            seat = seat + 1;
        }
    }
    proof {
        assert(deck@.take(deck@.len() as int) =~= deck@);
    }
    hands
}

/// Counting cards made from characters counts the characters themselves.
proof fn lemma_character_cards_count(s: Seq<Character>, y: Card)
    ensures
        s.map_values(char_card()).to_multiset().count(y) == (match y {
            Card::Character(c) => s.to_multiset().count(c),
            _ => 0,
        }),
    decreases s.len(),
{
    broadcast use vstd::multiset::group_multiset_axioms;

    if s.len() == 0 {
        assert(s.map_values(char_card()) =~= Seq::<Card>::empty());
        assert(!Seq::<Card>::empty().contains(y));
        match y {
            Card::Character(c) => {
                assert(!s.contains(c));
            },
            _ => {},
        }
    } else {
        let dl = s.drop_last();
        lemma_character_cards_count(dl, y);
        assert(s =~= dl.push(s.last()));
        assert(s.map_values(char_card()) =~= dl.map_values(char_card()).push(
            Card::Character(s.last()),
        ));
        assert(dl.push(s.last()).to_multiset() == dl.to_multiset().insert(s.last()));
        assert(dl.map_values(char_card()).push(Card::Character(s.last())).to_multiset()
            == dl.map_values(char_card()).to_multiset().insert(Card::Character(s.last())));
    }
}

/// Counting cards made from weapons counts the weapons themselves.
proof fn lemma_weapon_cards_count(s: Seq<Weapon>, y: Card)
    ensures
        s.map_values(weapon_card()).to_multiset().count(y) == (match y {
            Card::Weapon(w) => s.to_multiset().count(w),
            _ => 0,
        }),
    decreases s.len(),
{
    broadcast use vstd::multiset::group_multiset_axioms;

    if s.len() == 0 {
        assert(s.map_values(weapon_card()) =~= Seq::<Card>::empty());
        assert(!Seq::<Card>::empty().contains(y));
        match y {
            Card::Weapon(w) => {
                assert(!s.contains(w));
            },
            _ => {},
        }
    } else {
        let dl = s.drop_last();
        lemma_weapon_cards_count(dl, y);
        assert(s =~= dl.push(s.last()));
        assert(s.map_values(weapon_card()) =~= dl.map_values(weapon_card()).push(
            Card::Weapon(s.last()),
        ));
        assert(dl.push(s.last()).to_multiset() == dl.to_multiset().insert(s.last()));
        assert(dl.map_values(weapon_card()).push(Card::Weapon(s.last())).to_multiset()
            == dl.map_values(weapon_card()).to_multiset().insert(Card::Weapon(s.last())));
    }
}

/// Counting cards made from rooms counts the rooms themselves.
proof fn lemma_room_cards_count(s: Seq<Room>, y: Card)
    ensures
        s.map_values(room_card()).to_multiset().count(y) == (match y {
            Card::Room(r) => s.to_multiset().count(r),
            _ => 0,
        }),
    decreases s.len(),
{
    broadcast use vstd::multiset::group_multiset_axioms;

    if s.len() == 0 {
        assert(s.map_values(room_card()) =~= Seq::<Card>::empty());
        assert(!Seq::<Card>::empty().contains(y));
        match y {
            Card::Room(r) => {
                assert(!s.contains(r));
            },
            _ => {},
        }
    } else {
        let dl = s.drop_last();
        lemma_room_cards_count(dl, y);
        assert(s =~= dl.push(s.last()));
        assert(s.map_values(room_card()) =~= dl.map_values(room_card()).push(Card::Room(s.last())));
        assert(dl.push(s.last()).to_multiset() == dl.to_multiset().insert(s.last()));
        assert(dl.map_values(room_card()).push(Card::Room(s.last())).to_multiset()
            == dl.map_values(room_card()).to_multiset().insert(Card::Room(s.last())));
    }
}

fn push_character_cards(deck: &mut Vec<Card>, list: &Vec<Character>)
    ensures
        final(deck)@ == old(deck)@ + list@.map_values(char_card()),
{
    let mut i: usize = 0;
    while i < list.len()
        invariant
            i <= list@.len(),
            deck@ == old(deck)@ + list@.take(i as int).map_values(char_card()),
        decreases list@.len() - i,
    {
        proof {
            assert(list@.take(i + 1) =~= list@.take(i as int).push(list@[i as int]));
            assert(list@.take(i + 1).map_values(char_card()) =~= list@.take(
                i as int,
            ).map_values(char_card()).push(Card::Character(list@[i as int])));
            assert(old(deck)@ + list@.take(i + 1).map_values(char_card()) =~= (old(deck)@
                + list@.take(i as int).map_values(char_card())).push(
                Card::Character(list@[i as int]),
            ));
        }
        let card = list[i].to_card();
        deck.push(card);
        i += 1;
    }
    proof {
        assert(list@.take(list@.len() as int) =~= list@);
    }
}

fn push_weapon_cards(deck: &mut Vec<Card>, list: &Vec<Weapon>)
    ensures
        final(deck)@ == old(deck)@ + list@.map_values(weapon_card()),
{
    let mut i: usize = 0;
    while i < list.len()
        invariant
            i <= list@.len(),
            deck@ == old(deck)@ + list@.take(i as int).map_values(weapon_card()),
        decreases list@.len() - i,
    {
        proof {
            assert(list@.take(i + 1) =~= list@.take(i as int).push(list@[i as int]));
            assert(list@.take(i + 1).map_values(weapon_card()) =~= list@.take(
                i as int,
            ).map_values(weapon_card()).push(Card::Weapon(list@[i as int])));
            assert(old(deck)@ + list@.take(i + 1).map_values(weapon_card()) =~= (old(deck)@
                + list@.take(i as int).map_values(weapon_card())).push(
                Card::Weapon(list@[i as int]),
            ));
        }
        let card = list[i].to_card();
        deck.push(card);
        i += 1;
    }
    proof {
        assert(list@.take(list@.len() as int) =~= list@);
    }
}

fn push_room_cards(deck: &mut Vec<Card>, list: &Vec<Room>)
    ensures
        final(deck)@ == old(deck)@ + list@.map_values(room_card()),
{
    let mut i: usize = 0;
    while i < list.len()
        invariant
            i <= list@.len(),
            deck@ == old(deck)@ + list@.take(i as int).map_values(room_card()),
        decreases list@.len() - i,
    {
        proof {
            assert(list@.take(i + 1) =~= list@.take(i as int).push(list@[i as int]));
            assert(list@.take(i + 1).map_values(room_card()) =~= list@.take(
                i as int,
            ).map_values(room_card()).push(Card::Room(list@[i as int])));
            assert(old(deck)@ + list@.take(i + 1).map_values(room_card()) =~= (old(deck)@
                + list@.take(i as int).map_values(room_card())).push(Card::Room(list@[i as int])));
        }
        let card = list[i].to_card();
        deck.push(card);
        i += 1;
    }
    proof {
        assert(list@.take(list@.len() as int) =~= list@);
    }
}

/// The failures the engine can surface: a rejected table size, an agent whose
/// accusation does not match the hidden solution (a fatal logic error carrying
/// its diagnostic context), and the safety cap on the turn count.
#[derive(Debug, Eq, PartialEq, Copy, Clone)]
pub enum GameError {
    InvalidPlayerCount(u8),
    IncorrectAccusation { guessed: (Character, Weapon, Room), solution: (Character, Weapon, Room) },
    TurnLimitReached,
}

pub const MIN_PLAYERS: u8 = 3;

pub const MAX_PLAYERS: u8 = 6;

/// A game in progress: the hidden solution and one dealt hand per seat.
#[derive(Debug)]
pub struct Game {
    pub solution: (Character, Weapon, Room),
    pub hands: Vec<Vec<Card>>,
}

impl Game {
    /// A well-formed table seats between three and six players.
    pub open spec fn wf(&self) -> bool {
        MIN_PLAYERS as int <= self.hands@.len() <= MAX_PLAYERS as int
    }

    /// The multiset of all dealt cards, over every seat.
    pub open spec fn dealt_cards(&self) -> Multiset<Card> {
        hands_sum(views_of(self.hands@))
    }

    /// The dealt cards together with the three solution cards.
    pub open spec fn with_solution(&self, m: Multiset<Card>) -> Multiset<Card> {
        m.insert(Card::Character(self.solution.0)).insert(Card::Weapon(self.solution.1)).insert(
            Card::Room(self.solution.2),
        )
    }

    /// Set up a game: pick a solution uniformly at random, then deal the rest
    /// of the deck round-robin. The dealt hands plus the solution make up the
    /// full deck exactly once, and hand sizes differ by at most one.
    pub fn new(number_of_players: u8) -> (res: Result<Game, GameError>)
        ensures
            res is Ok <==> (MIN_PLAYERS <= number_of_players <= MAX_PLAYERS),
            (match res {
                Ok(g) => {
                    &&& g.wf()
                    &&& g.hands@.len() == number_of_players as int
                    &&& g.with_solution(g.dealt_cards()) == full_deck().to_multiset()
                    &&& forall|a: int, b: int|
                        0 <= a < g.hands@.len() && 0 <= b < g.hands@.len()
                            ==> #[trigger] g.hands@[a]@.len() <= #[trigger] g.hands@[b]@.len() + 1
                },
                Err(e) => e == GameError::InvalidPlayerCount(number_of_players),
            }),
    {
        if number_of_players < MIN_PLAYERS || number_of_players > MAX_PLAYERS {
            return Err(GameError::InvalidPlayerCount(number_of_players));
        }
        let mut characters = Character::shuffled_list();
        let mut weapons = Weapon::shuffled_list();
        let mut rooms = Room::shuffled_list();
        let ghost chars_full = characters@;
        let ghost weapons_full = weapons@;
        let ghost rooms_full = rooms@;
        proof {
            vstd::seq_lib::to_multiset_len(characters@);
            vstd::seq_lib::to_multiset_len(all_characters());
            vstd::seq_lib::to_multiset_len(weapons@);
            vstd::seq_lib::to_multiset_len(all_weapons());
            vstd::seq_lib::to_multiset_len(rooms@);
            vstd::seq_lib::to_multiset_len(all_rooms());
        }
        let sol_c = characters.pop().unwrap();
        let sol_w = weapons.pop().unwrap();
        let sol_r = rooms.pop().unwrap();
        proof {
            assert(chars_full =~= characters@.push(sol_c));
            assert(weapons_full =~= weapons@.push(sol_w));
            assert(rooms_full =~= rooms@.push(sol_r));
        }
        let mut deck: Vec<Card> = Vec::new();
        push_character_cards(&mut deck, &characters);
        push_weapon_cards(&mut deck, &weapons);
        push_room_cards(&mut deck, &rooms);
        let ghost ccs = characters@.map_values(char_card());
        let ghost wcs = weapons@.map_values(weapon_card());
        let ghost rcs = rooms@.map_values(room_card());
        proof {
            broadcast use vstd::multiset::group_multiset_axioms;

            assert(deck@ =~= (ccs + wcs) + rcs);
            let target = deck@.to_multiset().insert(Card::Character(sol_c)).insert(
                Card::Weapon(sol_w),
            ).insert(Card::Room(sol_r));
            assert forall|y: Card| target.count(y) == full_deck().to_multiset().count(y) by {
                lemma_character_cards_count(characters@, y);
                lemma_character_cards_count(all_characters(), y);
                lemma_weapon_cards_count(weapons@, y);
                lemma_weapon_cards_count(all_weapons(), y);
                lemma_room_cards_count(rooms@, y);
                lemma_room_cards_count(all_rooms(), y);
                vstd::seq_lib::lemma_multiset_commutative(ccs + wcs, rcs);
                vstd::seq_lib::lemma_multiset_commutative(ccs, wcs);
                vstd::seq_lib::lemma_multiset_commutative(
                    all_characters().map_values(char_card()) + all_weapons().map_values(
                        weapon_card(),
                    ),
                    all_rooms().map_values(room_card()),
                );
                vstd::seq_lib::lemma_multiset_commutative(
                    all_characters().map_values(char_card()),
                    all_weapons().map_values(weapon_card()),
                );
            };
            assert(target =~= full_deck().to_multiset());
        }
        rng::shuffle(&mut deck);
        let hands = deal_round_robin(&deck, number_of_players as usize);
        let game = Game { solution: (sol_c, sol_w, sol_r), hands };
        proof {
            broadcast use vstd::multiset::group_multiset_axioms;

            assert(game.with_solution(game.dealt_cards()) =~= full_deck().to_multiset());
        }
        Ok(game)
    }
}

proof fn lemma_hands_sum_witness(hands: Seq<Seq<Card>>, y: Card)
    requires
        hands_sum(hands).count(y) > 0,
    ensures
        exists|j: int| 0 <= j < hands.len() && #[trigger] hands[j].contains(y),
    decreases hands.len(),
{
    broadcast use vstd::multiset::group_multiset_axioms;

    if hands.len() == 0 {
        assert(false);
    } else if hands[0].to_multiset().count(y) > 0 {
        assert(hands[0].contains(y));
    } else {
        lemma_hands_sum_witness(hands.drop_first(), y);
        let j = choose|j: int|
            0 <= j < hands.drop_first().len() && hands.drop_first()[j].contains(y);
        assert(hands[j + 1].contains(y));
    }
}

proof fn lemma_all_characters_count(x: Character)
    ensures
        all_characters().to_multiset().count(x) == 1,
{
    broadcast use vstd::multiset::group_multiset_axioms;

    let e = Seq::<Character>::empty();
    let s = e.push(Character::SCARLET).push(Character::MUSTARD).push(Character::WHITE).push(
        Character::PLUM,
    ).push(Character::PEACOCK).push(Character::GREEN);
    assert(all_characters() =~= s);
    assert forall|y: Character| #[trigger] e.to_multiset().count(y) == 0 by {
        assert(!e.contains(y));
    };
    match x {
        Character::SCARLET => assert(s.to_multiset().count(x) == 1),
        Character::MUSTARD => assert(s.to_multiset().count(x) == 1),
        Character::WHITE => assert(s.to_multiset().count(x) == 1),
        Character::PLUM => assert(s.to_multiset().count(x) == 1),
        Character::PEACOCK => assert(s.to_multiset().count(x) == 1),
        Character::GREEN => assert(s.to_multiset().count(x) == 1),
    }
}

proof fn lemma_all_weapons_count(x: Weapon)
    ensures
        all_weapons().to_multiset().count(x) == 1,
{
    broadcast use vstd::multiset::group_multiset_axioms;

    let e = Seq::<Weapon>::empty();
    let s = e.push(Weapon::PIPE).push(Weapon::ROPE).push(Weapon::DAGGER).push(
        Weapon::REVOLVER,
    ).push(Weapon::CANDLESTICK);
    assert(all_weapons() =~= s);
    assert forall|y: Weapon| #[trigger] e.to_multiset().count(y) == 0 by {
        assert(!e.contains(y));
    };
    match x {
        Weapon::PIPE => assert(s.to_multiset().count(x) == 1),
        Weapon::ROPE => assert(s.to_multiset().count(x) == 1),
        Weapon::DAGGER => assert(s.to_multiset().count(x) == 1),
        Weapon::REVOLVER => assert(s.to_multiset().count(x) == 1),
        Weapon::CANDLESTICK => assert(s.to_multiset().count(x) == 1),
    }
}

proof fn lemma_all_rooms_count(x: Room)
    ensures
        all_rooms().to_multiset().count(x) == 1,
{
    broadcast use vstd::multiset::group_multiset_axioms;

    let e = Seq::<Room>::empty();
    let s = e.push(Room::KITCHEN).push(Room::BALLROOM).push(Room::CONSERVATORY).push(
        Room::BILLIARD_ROOM,
    ).push(Room::LIBRARY).push(Room::STUDY).push(Room::HALL).push(Room::LOUNGE).push(
        Room::DINING_ROOM,
    );
    assert(all_rooms() =~= s);
    assert forall|y: Room| #[trigger] e.to_multiset().count(y) == 0 by {
        assert(!e.contains(y));
    };
    match x {
        Room::KITCHEN => assert(s.to_multiset().count(x) == 1),
        Room::BALLROOM => assert(s.to_multiset().count(x) == 1),
        Room::CONSERVATORY => assert(s.to_multiset().count(x) == 1),
        Room::BILLIARD_ROOM => assert(s.to_multiset().count(x) == 1),
        Room::LIBRARY => assert(s.to_multiset().count(x) == 1),
        Room::STUDY => assert(s.to_multiset().count(x) == 1),
        Room::HALL => assert(s.to_multiset().count(x) == 1),
        Room::LOUNGE => assert(s.to_multiset().count(x) == 1),
        Room::DINING_ROOM => assert(s.to_multiset().count(x) == 1),
    }
}

/// Law: the full deck holds every card exactly once; together with the deal
/// partition, no card appears twice and none is missing.
pub proof fn lemma_full_deck_each_card_once(y: Card)
    ensures
        full_deck().to_multiset().count(y) == 1,
{
    broadcast use vstd::multiset::group_multiset_axioms;

    lemma_character_cards_count(all_characters(), y);
    lemma_weapon_cards_count(all_weapons(), y);
    lemma_room_cards_count(all_rooms(), y);
    vstd::seq_lib::lemma_multiset_commutative(
        all_characters().map_values(char_card()) + all_weapons().map_values(weapon_card()),
        all_rooms().map_values(room_card()),
    );
    vstd::seq_lib::lemma_multiset_commutative(
        all_characters().map_values(char_card()),
        all_weapons().map_values(weapon_card()),
    );
    match y {
        Card::Character(c) => lemma_all_characters_count(c),
        Card::Weapon(w) => lemma_all_weapons_count(w),
        Card::Room(r) => lemma_all_rooms_count(r),
    }
}

proof fn lemma_hands_sum_member(hands: Seq<Seq<Card>>, j: int, y: Card)
    requires
        0 <= j < hands.len(),
        hands[j].contains(y),
    ensures
        hands_sum(hands).count(y) > 0,
    decreases hands.len(),
{
    broadcast use vstd::multiset::group_multiset_axioms;

    if j == 0 {
        assert(hands[0].to_multiset().count(y) > 0);
    } else {
        lemma_hands_sum_member(hands.drop_first(), j - 1, y);
    }
}

/// Law: the solution is never placed into any dealt hand.
pub proof fn lemma_solution_never_dealt(g: Game)
    requires
        g.with_solution(g.dealt_cards()) == full_deck().to_multiset(),
    ensures
        forall|j: int|
            #![trigger g.hands@[j]]
            0 <= j < g.hands@.len() ==> !g.hands@[j]@.contains(Card::Character(g.solution.0))
                && !g.hands@[j]@.contains(Card::Weapon(g.solution.1)) && !g.hands@[j]@.contains(
                Card::Room(g.solution.2),
            ),
{
    broadcast use vstd::multiset::group_multiset_axioms;

    lemma_full_deck_each_card_once(Card::Character(g.solution.0));
    lemma_full_deck_each_card_once(Card::Weapon(g.solution.1));
    lemma_full_deck_each_card_once(Card::Room(g.solution.2));
    assert(g.dealt_cards().count(Card::Character(g.solution.0)) == 0) by {
        assert(g.with_solution(g.dealt_cards()).count(Card::Character(g.solution.0)) == 1);
    }
    assert(g.dealt_cards().count(Card::Weapon(g.solution.1)) == 0) by {
        assert(g.with_solution(g.dealt_cards()).count(Card::Weapon(g.solution.1)) == 1);
    }
    assert(g.dealt_cards().count(Card::Room(g.solution.2)) == 0) by {
        assert(g.with_solution(g.dealt_cards()).count(Card::Room(g.solution.2)) == 1);
    }
    assert forall|j: int| 0 <= j < g.hands@.len() implies !g.hands@[j]@.contains(
        Card::Character(g.solution.0),
    ) && !g.hands@[j]@.contains(Card::Weapon(g.solution.1)) && !g.hands@[j]@.contains(
        Card::Room(g.solution.2),
    ) by {
        if g.hands@[j]@.contains(Card::Character(g.solution.0)) {
            lemma_hands_sum_member(views_of(g.hands@), j, Card::Character(g.solution.0));
        }
        if g.hands@[j]@.contains(Card::Weapon(g.solution.1)) {
            lemma_hands_sum_member(views_of(g.hands@), j, Card::Weapon(g.solution.1));
        }
        if g.hands@[j]@.contains(Card::Room(g.solution.2)) {
            lemma_hands_sum_member(views_of(g.hands@), j, Card::Room(g.solution.2));
        }
    };
}

/// Whether some seat's hand holds the given card.
pub open spec fn someone_holds(g: Game, card: Card) -> bool {
    exists|j: int| 0 <= j < g.hands@.len() && #[trigger] g.hands@[j]@.contains(card)
}

/// From the deal partition: every roster card other than the three solution
/// cards sits in some seat's hand. This is the closed-world rule that makes
/// the eliminating agent's collapse on an unrefuted suggestion sound.
pub proof fn lemma_partition_closed_world(g: Game)
    requires
        g.with_solution(g.dealt_cards()) == full_deck().to_multiset(),
    ensures
        forall|x: Character| x != g.solution.0 ==> #[trigger] someone_holds(g, Card::Character(x)),
        forall|x: Weapon| x != g.solution.1 ==> #[trigger] someone_holds(g, Card::Weapon(x)),
        forall|x: Room| x != g.solution.2 ==> #[trigger] someone_holds(g, Card::Room(x)),
{
    broadcast use vstd::multiset::group_multiset_axioms;

    assert forall|x: Character| x != g.solution.0 implies #[trigger] someone_holds(
        g,
        Card::Character(x),
    ) by {
        let s = all_characters();
        assert(s.contains(x)) by {
            match x {
                Character::SCARLET => assert(s[0] == x),
                Character::MUSTARD => assert(s[1] == x),
                Character::WHITE => assert(s[2] == x),
                Character::PLUM => assert(s[3] == x),
                Character::PEACOCK => assert(s[4] == x),
                Character::GREEN => assert(s[5] == x),
            }
        }
        let i = choose|i: int| 0 <= i < s.len() && s[i] == x;
        assert(full_deck()[i] == Card::Character(x));
        assert(full_deck().contains(Card::Character(x)));
        assert(full_deck().to_multiset().count(Card::Character(x)) > 0);
        assert(g.with_solution(g.dealt_cards()).count(Card::Character(x)) > 0);
        assert(g.dealt_cards().count(Card::Character(x)) > 0);
        lemma_hands_sum_witness(views_of(g.hands@), Card::Character(x));
        let j = choose|j: int|
            0 <= j < views_of(g.hands@).len() && views_of(g.hands@)[j].contains(
                Card::Character(x),
            );
        assert(g.hands@[j]@.contains(Card::Character(x)));
    };
    assert forall|x: Weapon| x != g.solution.1 implies #[trigger] someone_holds(
        g,
        Card::Weapon(x),
    ) by {
        let s = all_weapons();
        assert(s.contains(x)) by {
            match x {
                Weapon::PIPE => assert(s[0] == x),
                Weapon::ROPE => assert(s[1] == x),
                Weapon::DAGGER => assert(s[2] == x),
                Weapon::REVOLVER => assert(s[3] == x),
                Weapon::CANDLESTICK => assert(s[4] == x),
            }
        }
        let i = choose|i: int| 0 <= i < s.len() && s[i] == x;
        assert(full_deck()[all_characters().len() + i] == Card::Weapon(x));
        assert(full_deck().contains(Card::Weapon(x)));
        assert(full_deck().to_multiset().count(Card::Weapon(x)) > 0);
        assert(g.with_solution(g.dealt_cards()).count(Card::Weapon(x)) > 0);
        assert(g.dealt_cards().count(Card::Weapon(x)) > 0);
        lemma_hands_sum_witness(views_of(g.hands@), Card::Weapon(x));
        let j = choose|j: int|
            0 <= j < views_of(g.hands@).len() && views_of(g.hands@)[j].contains(Card::Weapon(x));
        assert(g.hands@[j]@.contains(Card::Weapon(x)));
    };
    assert forall|x: Room| x != g.solution.2 implies #[trigger] someone_holds(
        g,
        Card::Room(x),
    ) by {
        let s = all_rooms();
        assert(s.contains(x)) by {
            match x {
                Room::KITCHEN => assert(s[0] == x),
                Room::BALLROOM => assert(s[1] == x),
                Room::CONSERVATORY => assert(s[2] == x),
                Room::BILLIARD_ROOM => assert(s[3] == x),
                Room::LIBRARY => assert(s[4] == x),
                Room::STUDY => assert(s[5] == x),
                Room::HALL => assert(s[6] == x),
                Room::LOUNGE => assert(s[7] == x),
                Room::DINING_ROOM => assert(s[8] == x),
            }
        }
        let i = choose|i: int| 0 <= i < s.len() && s[i] == x;
        assert(full_deck()[all_characters().len() + all_weapons().len() + i] == Card::Room(x));
        assert(full_deck().contains(Card::Room(x)));
        assert(full_deck().to_multiset().count(Card::Room(x)) > 0);
        assert(g.with_solution(g.dealt_cards()).count(Card::Room(x)) > 0);
        assert(g.dealt_cards().count(Card::Room(x)) > 0);
        lemma_hands_sum_witness(views_of(g.hands@), Card::Room(x));
        let j = choose|j: int|
            0 <= j < views_of(g.hands@).len() && views_of(g.hands@)[j].contains(Card::Room(x));
        assert(g.hands@[j]@.contains(Card::Room(x)));
    };
}

/// Law: a suggestion that no seat could refute pins the solution, provided
/// the suggester's own hand holds none of the three suggested cards. With the
/// closed-world rule, a card held by nobody must be a solution card. This is
/// what makes the eliminating agent's collapse on a table-wide "no response"
/// to its own suggestion sound: it only ever suggests candidates, and its own
/// hand's cards were struck from the candidate sets at setup.
pub proof fn lemma_unrefuted_suggestion_is_solution(
    g: Game,
    suggester: int,
    c: Character,
    w: Weapon,
    r: Room,
)
    requires
        g.with_solution(g.dealt_cards()) == full_deck().to_multiset(),
        0 <= suggester < g.hands@.len(),
        forall|j: int|
            0 <= j < g.hands@.len() && j != suggester ==> !hand_has_suggested(
                #[trigger] g.hands@[j]@,
                c,
                w,
                r,
            ),
        !hand_has_suggested(g.hands@[suggester]@, c, w, r),
    ensures
        c == g.solution.0,
        w == g.solution.1,
        r == g.solution.2,
{
    lemma_partition_closed_world(g);
    if c != g.solution.0 {
        assert(someone_holds(g, Card::Character(c)));
        let j = choose|j: int| 0 <= j < g.hands@.len() && g.hands@[j]@.contains(Card::Character(c));
        assert(hand_has_suggested(g.hands@[j]@, c, w, r));
        assert(false);
    }
    if w != g.solution.1 {
        assert(someone_holds(g, Card::Weapon(w)));
        let j = choose|j: int| 0 <= j < g.hands@.len() && g.hands@[j]@.contains(Card::Weapon(w));
        assert(hand_has_suggested(g.hands@[j]@, c, w, r));
        assert(false);
    }
    if r != g.solution.2 {
        assert(someone_holds(g, Card::Room(r)));
        let j = choose|j: int| 0 <= j < g.hands@.len() && g.hands@[j]@.contains(Card::Room(r));
        assert(hand_has_suggested(g.hands@[j]@, c, w, r));
        assert(false);
    }
}

/// Whether a hand could refute the suggested triple: it holds at least one of
/// the three named cards.
pub open spec fn hand_has_suggested(hand: Seq<Card>, c: Character, w: Weapon, r: Room) -> bool {
    hand.contains(Card::Character(c)) || hand.contains(Card::Weapon(w)) || hand.contains(
        Card::Room(r),
    )
}

/// The card a refuting hand shows, checking the character card first, then
/// the weapon card, then the room card.
pub open spec fn shown_card(hand: Seq<Card>, c: Character, w: Weapon, r: Room) -> Card {
    if hand.contains(Card::Character(c)) {
        Card::Character(c)
    } else if hand.contains(Card::Weapon(w)) {
        Card::Weapon(w)
    } else {
        Card::Room(r)
    }
}

/// The seat reached from `suggester` after `off` clockwise steps around a
/// table of `n` seats, for `0 <= off < n`.
pub open spec fn seat_at(suggester: int, off: int, n: int) -> int {
    if suggester + off < n {
        suggester + off
    } else {
        suggester + off - n
    }
}

fn hand_contains(hand: &Vec<Card>, card: Card) -> (found: bool)
    ensures
        found == hand@.contains(card),
{
    let mut i: usize = 0;
    while i < hand.len()
        invariant
            i <= hand@.len(),
            forall|k: int| 0 <= k < i ==> hand@[k] != card,
        decreases hand@.len() - i,
    {
        if hand[i] == card {
            return true;
        }
        i += 1;
    }
    false
}

/// Resolve a suggestion: scan the seats clockwise from the one just after the
/// suggester, and stop at the first whose hand holds any of the three named
/// cards. Returns that seat and the card it shows, or nothing when no seat
/// can refute.
pub fn resolve_suggestion(
    hands: &Vec<Vec<Card>>,
    suggester: usize,
    c: Character,
    w: Weapon,
    r: Room,
) -> (res: Option<(usize, Card)>)
    requires
        suggester < hands@.len(),
        hands@.len() <= MAX_PLAYERS as int,
    ensures
        (match res {
            Some(found) => {
                &&& (found.0 as int) < hands@.len()
                &&& found.0 != suggester
                &&& hand_has_suggested(hands@[found.0 as int]@, c, w, r)
                &&& found.1 == shown_card(hands@[found.0 as int]@, c, w, r)
                &&& exists|off: int|
                    1 <= off < hands@.len() && found.0 as int == #[trigger] seat_at(
                        suggester as int,
                        off,
                        hands@.len() as int,
                    ) && (forall|o2: int|
                        #![trigger seat_at(suggester as int, o2, hands@.len() as int)]
                        1 <= o2 < off ==> !hand_has_suggested(
                            hands@[seat_at(suggester as int, o2, hands@.len() as int)]@,
                            c,
                            w,
                            r,
                        ))
            },
            None => forall|j: int|
                0 <= j < hands@.len() && j != suggester ==> !hand_has_suggested(
                    #[trigger] hands@[j]@,
                    c,
                    w,
                    r,
                ),
        }),
{
    let n = hands.len();
    let mut off: usize = 1;
    while off < n
        invariant
            suggester < n,
            n == hands@.len(),
            n <= MAX_PLAYERS as usize,
            1 <= off <= n,
            forall|o2: int|
                #![trigger seat_at(suggester as int, o2, n as int)]
                1 <= o2 < off ==> !hand_has_suggested(
                    hands@[seat_at(suggester as int, o2, n as int)]@,
                    c,
                    w,
                    r,
                ),
        decreases n - off,
    {
        let seat = if suggester + off < n {
            suggester + off
        } else {
            suggester + off - n
        };
        proof {
            assert(seat as int == seat_at(suggester as int, off as int, n as int));
            assert(seat != suggester);
        }
        let hand = &hands[seat];
        if hand_contains(hand, c.to_card()) {
            return Some((seat, c.to_card()));
        }
        if hand_contains(hand, w.to_card()) {
            return Some((seat, w.to_card()));
        }
        if hand_contains(hand, r.to_card()) {
            return Some((seat, r.to_card()));
        }
        off += 1;
    }
    proof {
        assert forall|j: int| 0 <= j < hands@.len() && j != suggester implies !hand_has_suggested(
            hands@[j]@,
            c,
            w,
            r,
        ) by {
            if j > suggester {
                assert(seat_at(suggester as int, j - suggester, n as int) == j);
            } else {
                assert(seat_at(suggester as int, j + n - suggester, n as int) == j);
            }
        };
    }
    None
}

/// What one seat is told of a resolved suggestion: nobody hears anything when
/// no seat could refute; otherwise every seat hears who responded, and the
/// suggester alone is shown the card.
pub open spec fn spec_response_for(
    seat: int,
    suggester: int,
    resolution: Option<(usize, Card)>,
) -> Option<Response> {
    match resolution {
        None => None,
        Some(found) => Some(
            Response {
                from: found.0,
                card: if seat == suggester {
                    Some(found.1)
                } else {
                    None
                },
            },
        ),
    }
}

/// Whether a response reveals a concrete card.
pub open spec fn carries_card(resp: Option<Response>) -> bool {
    match resp {
        Some(response) => response.card is Some,
        None => false,
    }
}

pub fn response_for_seat(seat: usize, suggester: usize, resolution: Option<(usize, Card)>) -> (resp:
    Option<Response>)
    ensures
        resp == spec_response_for(seat as int, suggester as int, resolution),
{
    match resolution {
        None => None,
        Some((from, card)) => {
            if seat == suggester {
                Some(Response { from, card: Some(card) })
            } else {
                Some(Response { from, card: None })
            }
        },
    }
}

/// Law: response privacy. For any one resolved suggestion, at most one seat's
/// response carries a concrete card — the suggester's. Every other seat is
/// told at most which seat responded.
pub proof fn lemma_response_privacy(
    seat_a: int,
    seat_b: int,
    suggester: int,
    resolution: Option<(usize, Card)>,
)
    requires
        seat_a != seat_b,
    ensures
        !(carries_card(spec_response_for(seat_a, suggester, resolution)) && carries_card(
            spec_response_for(seat_b, suggester, resolution),
        )),
{
}

/// Law: one observed turn keeps the solution in an eliminating agent's
/// belief. In a game whose deal partitions the deck, take any suggestion, the
/// resolution the engine computes for it, and the response it hands to one
/// seat: updating a belief that still holds the solution yields a belief that
/// still holds it. The last premise is the agent's own discipline: it only
/// suggests candidates, and its hand's cards were struck at setup, so on a
/// table-wide "no response" to its own suggestion its hand holds none of the
/// three named cards either.
pub proof fn lemma_observation_retains_solution(
    g: Game,
    v: BeliefView,
    suggester: int,
    c: Character,
    w: Weapon,
    r: Room,
    resolution: Option<(usize, Card)>,
    seat: int,
)
    requires
        g.with_solution(g.dealt_cards()) == full_deck().to_multiset(),
        0 <= suggester < g.hands@.len(),
        v.position == seat,
        v.characters.contains(g.solution.0),
        v.weapons.contains(g.solution.1),
        v.rooms.contains(g.solution.2),
        (match resolution {
            Some(found) => 0 <= found.0 < g.hands@.len() && found.0 != suggester
                && g.hands@[found.0 as int]@.contains(found.1),
            None => forall|j: int|
                0 <= j < g.hands@.len() && j != suggester ==> !hand_has_suggested(
                    #[trigger] g.hands@[j]@,
                    c,
                    w,
                    r,
                ),
        }),
        (resolution is None && seat == suggester) ==> !hand_has_suggested(
            g.hands@[suggester]@,
            c,
            w,
            r,
        ),
    ensures
        belief_after_response(
            v,
            suggester,
            Guess::Suggest(c, w, r),
            spec_response_for(seat, suggester, resolution),
        ).characters.contains(g.solution.0),
        belief_after_response(
            v,
            suggester,
            Guess::Suggest(c, w, r),
            spec_response_for(seat, suggester, resolution),
        ).weapons.contains(g.solution.1),
        belief_after_response(
            v,
            suggester,
            Guess::Suggest(c, w, r),
            spec_response_for(seat, suggester, resolution),
        ).rooms.contains(g.solution.2),
{
    let response = spec_response_for(seat, suggester, resolution);
    match resolution {
        Some(found) => {
            lemma_solution_never_dealt(g);
            assert(found.1 != Card::Character(g.solution.0) && found.1 != Card::Weapon(
                g.solution.1,
            ) && found.1 != Card::Room(g.solution.2)) by {
                assert(g.hands@[found.0 as int]@.contains(found.1));
            }
            lemma_elimination_retains_solution(
                v,
                suggester,
                Guess::Suggest(c, w, r),
                response,
                g.solution,
            );
        },
        None => {
            if seat == suggester {
                lemma_unrefuted_suggestion_is_solution(g, suggester, c, w, r);
            }
            lemma_elimination_retains_solution(
                v,
                suggester,
                Guess::Suggest(c, w, r),
                response,
                g.solution,
            );
        },
    }
}

/// The terminal record of a finished game.
#[derive(Debug, Eq, PartialEq, Copy, Clone, Structural)]
pub struct GameResult {
    pub injected_agent_won: bool,
    pub number_of_turns: usize,
}

impl GameResult {
    /// Law: win attribution. The reported flag compares the identity of the
    /// seat whose accusation ended the game against the seat under test,
    /// never a turn index.
    pub fn new(winning_seat: usize, injected_seat: usize, number_of_turns: usize) -> (res:
        GameResult)
        ensures
            res.injected_agent_won == (winning_seat == injected_seat),
            res.number_of_turns == number_of_turns,
    {
        GameResult { injected_agent_won: winning_seat == injected_seat, number_of_turns }
    }
}

/// The safety cap on the number of turns: reaching it ends the game with an
/// error rather than looping forever on agents that never accuse.
pub const TURN_LIMIT: usize = 10000;

enum SeatAgent<InjectPlayerType: Player> {
    Injected(InjectPlayerType),
    Drawn(RandomPlayer),
    Eliminator(ProcessOfEliminationPlayer),
}

impl<InjectPlayerType: Player> SeatAgent<InjectPlayerType> {
    fn make_guess(&self) -> Guess {
        match self {
            SeatAgent::Injected(p) => p.make_guess(),
            SeatAgent::Drawn(p) => p.make_guess(),
            SeatAgent::Eliminator(p) => p.make_guess(),
        }
    }

    fn handle_response(&mut self, guess_from: usize, guess: Guess, response: Option<Response>) {
        match self {
            SeatAgent::Injected(p) => p.handle_response(guess_from, guess, response),
            SeatAgent::Drawn(p) => p.handle_response(guess_from, guess, response),
            SeatAgent::Eliminator(p) => p.handle_response(guess_from, guess, response),
        }
    }
}

fn clone_hand(hand: &Vec<Card>) -> (out: Vec<Card>)
    ensures
        out@ == hand@,
{
    let mut out: Vec<Card> = Vec::new();
    let mut i: usize = 0;
    while i < hand.len()
        invariant
            i <= hand@.len(),
            out@ == hand@.take(i as int),
        decreases hand@.len() - i,
    {
        out.push(hand[i]);
        proof {
            assert(hand@.take(i + 1) =~= hand@.take(i as int).push(hand@[i as int]));
        }
        i += 1;
    }
    proof {
        assert(hand@.take(hand@.len() as int) =~= hand@);
    }
    out
}

impl Game {
    /// Run the game with the seat under test fixed. One agent of the injected
    /// type sits at `injected_position`; every other seat draws one of the
    /// built-in strategies. Ends with the terminal record on the first
    /// correct accusation, with the diagnostic error on an incorrect one, and
    /// with the turn-limit error if no accusation arrives in time.
    pub fn play_from<InjectPlayerType: Player>(&self, injected_position: usize) -> (res: Result<
        GameResult,
        GameError,
    >)
        requires
            self.wf(),
            injected_position < self.hands@.len(),
        ensures
            (match res {
                Ok(game_result) => game_result.number_of_turns < TURN_LIMIT,
                Err(e) => match e {
                    GameError::IncorrectAccusation { guessed, solution } => solution
                        == self.solution && guessed != self.solution,
                    GameError::TurnLimitReached => true,
                    GameError::InvalidPlayerCount(..) => false,
                },
            }),
    {
        let n = self.hands.len();
        let mut players: Vec<SeatAgent<InjectPlayerType>> = Vec::new();
        let mut seat: usize = 0;
        while seat < n
            invariant
                players@.len() == seat as int,
                seat <= n,
                n == self.hands@.len(),
                self.wf(),
            decreases n - seat,
        {
            let hand = clone_hand(&self.hands[seat]);
            let agent: SeatAgent<InjectPlayerType> = if seat == injected_position {
                SeatAgent::Injected(InjectPlayerType::new(seat, n, hand))
            } else if rng::random_bool() {
                SeatAgent::Drawn(RandomPlayer::new(seat, n, hand))
            } else {
                SeatAgent::Eliminator(ProcessOfEliminationPlayer::new(seat, n, hand))
            };
            players.push(agent);
            seat += 1;
        }
        let mut turn_number: usize = 0;
        let mut current: usize = 0;
        loop
            invariant
                players@.len() == n as int,
                n == self.hands@.len(),
                self.wf(),
                current < n,
                turn_number <= TURN_LIMIT,
            decreases TURN_LIMIT - turn_number,
        {
            if turn_number == TURN_LIMIT {
                return Err(GameError::TurnLimitReached);
            }
            let guess = players[current].make_guess();
            match guess {
                Guess::Accuse(c, w, r) => {
                    if c == self.solution.0 && w == self.solution.1 && r == self.solution.2 {
                        return Ok(GameResult::new(current, injected_position, turn_number));
                    }
                    return Err(
                        GameError::IncorrectAccusation {
                            guessed: (c, w, r),
                            solution: self.solution,
                        },
                    );
                },
                Guess::Suggest(c, w, r) => {
                    let resolution = resolve_suggestion(&self.hands, current, c, w, r);
                    let mut listener: usize = 0;
                    while listener < n
                        invariant
                            players@.len() == n as int,
                            listener <= n,
                        decreases n - listener,
                    {
                        let response = response_for_seat(listener, current, resolution);
                        players[listener].handle_response(current, guess, response);
                        listener += 1;
                    }
                },
            }
            turn_number += 1;
            current = if current + 1 == n {
                0
            } else {
                current + 1
            };
        }
    }

    /// Run the game with the seat under test drawn uniformly at random.
    pub fn play<InjectPlayerType: Player>(&self) -> (res: Result<GameResult, GameError>)
        requires
            self.wf(),
        ensures
            (match res {
                Ok(game_result) => game_result.number_of_turns < TURN_LIMIT,
                Err(e) => match e {
                    GameError::IncorrectAccusation { guessed, solution } => solution
                        == self.solution && guessed != self.solution,
                    GameError::TurnLimitReached => true,
                    GameError::InvalidPlayerCount(..) => false,
                },
            }),
    {
        let injected_position = rng::random_below(self.hands.len());
        self.play_from::<InjectPlayerType>(injected_position)
    }
}

} // verus!
