//! The agent strategies: what a seat guesses and how it updates its private
//! belief state from the responses it observes.

use vstd::prelude::*;
use crate::game::{all_characters, all_rooms, all_weapons, Card, Character, Room, Weapon};

verus! {

broadcast use vstd::seq_lib::group_to_multiset_ensures, vstd::seq_lib::group_filter_ensures, vstd::seq_lib::group_seq_properties;

/// One turn's move: either a suggestion to be refuted by the other seats, or
/// an accusation checked against the hidden solution.
#[derive(Debug, Eq, PartialEq, Copy, Clone, Structural)]
pub enum Guess {
    Suggest(Character, Weapon, Room),
    Accuse(Character, Weapon, Room),
}

/// What a seat observes of a resolved suggestion: who responded, and — only
/// when this seat made the suggestion — which card was shown.
#[derive(Debug, Eq, PartialEq, Copy, Clone, Structural)]
pub struct Response {
    pub from: usize,
    pub card: Option<Card>,
}

/// The capability contract of an agent: it is built from its seat, the table
/// size and its dealt hand; it emits one guess per turn; and it observes the
/// outcome of every suggestion made at the table.
pub trait Player: Sized {
    fn new(position: usize, number_of_players: usize, hand: Vec<Card>) -> Self;

    fn make_guess(&self) -> Guess;

    fn handle_response(&mut self, guess_from: usize, guess: Guess, response: Option<Response>);
}

/// An agent that guesses uniformly at random and never accuses.
pub struct RandomPlayer {}

impl Player for RandomPlayer {
    fn new(_position: usize, _number_of_players: usize, _hand: Vec<Card>) -> Self {
        RandomPlayer {}
    }

    fn make_guess(&self) -> (g: Guess)
        ensures
            g is Suggest,
            (g matches Guess::Suggest(c, w, r) ==> all_characters().contains(c)
                && all_weapons().contains(w) && all_rooms().contains(r)),
    {
        let mut characters = Character::shuffled_list();
        let mut weapons = Weapon::shuffled_list();
        let mut rooms = Room::shuffled_list();
        proof {
            vstd::seq_lib::to_multiset_len(characters@);
            vstd::seq_lib::to_multiset_len(all_characters());
            vstd::seq_lib::to_multiset_len(weapons@);
            vstd::seq_lib::to_multiset_len(all_weapons());
            vstd::seq_lib::to_multiset_len(rooms@);
            vstd::seq_lib::to_multiset_len(all_rooms());
            assert(characters@.len() == all_characters().len());
            assert(weapons@.len() == all_weapons().len());
            assert(rooms@.len() == all_rooms().len());
        }
        let c = characters.pop().unwrap();
        let w = weapons.pop().unwrap();
        let r = rooms.pop().unwrap();
        proof {
            assert(characters@.push(c).to_multiset().count(c) > 0);
            assert(all_characters().contains(c));
            assert(weapons@.push(w).to_multiset().count(w) > 0);
            assert(all_weapons().contains(w));
            assert(rooms@.push(r).to_multiset().count(r) > 0);
            assert(all_rooms().contains(r));
        }
        Guess::Suggest(c, w, r)
    }

    fn handle_response(&mut self, _guess_from: usize, _guess: Guess, _response: Option<Response>)
        ensures
            *final(self) == *old(self),
    {
    }
}

/// The candidate sets an eliminating agent still believes possible, one per
/// category, together with its seat.
#[verifier::ext_equal]
pub struct BeliefView {
    pub position: int,
    pub characters: Seq<Character>,
    pub weapons: Seq<Weapon>,
    pub rooms: Seq<Room>,
}

/// The predicate "this character's card is not in the given hand".
pub open spec fn char_not_in(hand: Seq<Card>) -> spec_fn(Character) -> bool {
    |x: Character| !hand.contains(Card::Character(x))
}

/// The predicate "this weapon's card is not in the given hand".
pub open spec fn weapon_not_in(hand: Seq<Card>) -> spec_fn(Weapon) -> bool {
    |x: Weapon| !hand.contains(Card::Weapon(x))
}

/// The predicate "this room's card is not in the given hand".
pub open spec fn room_not_in(hand: Seq<Card>) -> spec_fn(Room) -> bool {
    |x: Room| !hand.contains(Card::Room(x))
}

pub open spec fn ne_char(c: Character) -> spec_fn(Character) -> bool {
    |x: Character| x != c
}

pub open spec fn ne_weapon(w: Weapon) -> spec_fn(Weapon) -> bool {
    |x: Weapon| x != w
}

pub open spec fn ne_room(r: Room) -> spec_fn(Room) -> bool {
    |x: Room| x != r
}

/// The belief an eliminating agent starts from: every roster member whose
/// card is not in its own hand, in roster order.
pub open spec fn initial_belief(position: int, hand: Seq<Card>) -> BeliefView {
    BeliefView {
        position: position,
        characters: all_characters().filter(char_not_in(hand)),
        weapons: all_weapons().filter(weapon_not_in(hand)),
        rooms: all_rooms().filter(room_not_in(hand)),
    }
}

/// A belief with one seen card struck from the category it belongs to.
pub open spec fn eliminate_from_belief(v: BeliefView, card: Card) -> BeliefView {
    match card {
        Card::Character(c) => BeliefView {
            position: v.position,
            characters: v.characters.filter(ne_char(c)),
            weapons: v.weapons,
            rooms: v.rooms,
        },
        Card::Weapon(w) => BeliefView {
            position: v.position,
            characters: v.characters,
            weapons: v.weapons.filter(ne_weapon(w)),
            rooms: v.rooms,
        },
        Card::Room(r) => BeliefView {
            position: v.position,
            characters: v.characters,
            weapons: v.weapons,
            rooms: v.rooms.filter(ne_room(r)),
        },
    }
}

/// How a belief changes on observing one resolved suggestion: a shown card is
/// struck; a table-wide "no response" to this agent's own suggestion collapses
/// each candidate set to the suggested member; everything else is ignored.
pub open spec fn belief_after_response(
    v: BeliefView,
    guess_from: int,
    guess: Guess,
    response: Option<Response>,
) -> BeliefView {
    match response {
        Some(resp) => match resp.card {
            Some(card) => eliminate_from_belief(v, card),
            None => v,
        },
        None => {
            if guess_from == v.position {
                match guess {
                    Guess::Suggest(c, w, r) => BeliefView {
                        position: v.position,
                        characters: seq![c],
                        weapons: seq![w],
                        rooms: seq![r],
                    },
                    Guess::Accuse(..) => v,
                }
            } else {
                v
            }
        },
    }
}

/// The guess a belief dictates: accuse once every candidate set is a
/// singleton, otherwise suggest the first remaining candidate of each
/// category. The rosters are never empty in a well-formed game; an empty
/// candidate list falls back to the first roster member rather than failing.
pub open spec fn belief_guess(v: BeliefView) -> Guess {
    if v.characters.len() == 1 && v.weapons.len() == 1 && v.rooms.len() == 1 {
        Guess::Accuse(v.characters[0], v.weapons[0], v.rooms[0])
    } else {
        Guess::Suggest(
            first_or(v.characters, Character::SCARLET),
            first_or(v.weapons, Weapon::PIPE),
            first_or(v.rooms, Room::KITCHEN),
        )
    }
}

pub open spec fn first_or<A>(s: Seq<A>, fallback: A) -> A {
    if s.len() >= 1 {
        s[0]
    } else {
        fallback
    }
}

/// A filter by an everywhere-true predicate keeps the sequence as it is.
proof fn lemma_filter_true<A>(s: Seq<A>, p: spec_fn(A) -> bool)
    requires
        forall|x: A| #[trigger] p(x),
    ensures
        s.filter(p) == s,
    decreases s.len(),
{
    reveal(Seq::filter);
    if s.len() != 0 {
        lemma_filter_true(s.drop_last(), p);
        assert(s.drop_last().push(s.last()) =~= s);
    }
}

/// Filtering twice is filtering once by the conjunction.
proof fn lemma_filter_compose<A>(
    s: Seq<A>,
    p: spec_fn(A) -> bool,
    q: spec_fn(A) -> bool,
    pq: spec_fn(A) -> bool,
)
    requires
        forall|x: A| #[trigger] pq(x) == (p(x) && q(x)),
    ensures
        s.filter(p).filter(q) == s.filter(pq),
    decreases s.len(),
{
    reveal(Seq::filter);
    if s.len() != 0 {
        lemma_filter_compose(s.drop_last(), p, q, pq);
        let sub = s.drop_last().filter(p);
        if p(s.last()) {
            sub.lemma_filter_push(s.last(), q);
        }
    }
}

/// An agent that narrows the solution by striking out every card it sees.
pub struct ProcessOfEliminationPlayer {
    position: usize,
    possible_characters: Vec<Character>,
    possible_weapons: Vec<Weapon>,
    possible_rooms: Vec<Room>,
}

impl View for ProcessOfEliminationPlayer {
    type V = BeliefView;

    closed spec fn view(&self) -> BeliefView {
        BeliefView {
            position: self.position as int,
            characters: self.possible_characters@,
            weapons: self.possible_weapons@,
            rooms: self.possible_rooms@,
        }
    }
}

fn retain_ne_character(v: &Vec<Character>, c: Character) -> (out: Vec<Character>)
    ensures
        out@ == v@.filter(ne_char(c)),
{
    let mut out: Vec<Character> = Vec::new();
    let mut i: usize = 0;
    while i < v.len()
        invariant
            i <= v@.len(),
            out@ == v@.take(i as int).filter(ne_char(c)),
        decreases v@.len() - i,
    {
        let x = v[i];
        proof {
            assert(v@.take(i + 1) =~= v@.take(i as int).push(v@[i as int]));
            v@.take(i as int).lemma_filter_push(v@[i as int], ne_char(c));
        }
        if x != c {
            out.push(x);
        }
        i += 1;
    }
    proof {
        assert(v@.take(v@.len() as int) =~= v@);
    }
    out
}

fn retain_ne_weapon(v: &Vec<Weapon>, w: Weapon) -> (out: Vec<Weapon>)
    ensures
        out@ == v@.filter(ne_weapon(w)),
{
    let mut out: Vec<Weapon> = Vec::new();
    let mut i: usize = 0;
    while i < v.len()
        invariant
            i <= v@.len(),
            out@ == v@.take(i as int).filter(ne_weapon(w)),
        decreases v@.len() - i,
    {
        let x = v[i];
        proof {
            assert(v@.take(i + 1) =~= v@.take(i as int).push(v@[i as int]));
            v@.take(i as int).lemma_filter_push(v@[i as int], ne_weapon(w));
        }
        if x != w {
            out.push(x);
        }
        i += 1;
    }
    proof {
        assert(v@.take(v@.len() as int) =~= v@);
    }
    out
}

fn retain_ne_room(v: &Vec<Room>, r: Room) -> (out: Vec<Room>)
    ensures
        out@ == v@.filter(ne_room(r)),
{
    let mut out: Vec<Room> = Vec::new();
    let mut i: usize = 0;
    while i < v.len()
        invariant
            i <= v@.len(),
            out@ == v@.take(i as int).filter(ne_room(r)),
        decreases v@.len() - i,
    {
        let x = v[i];
        proof {
            assert(v@.take(i + 1) =~= v@.take(i as int).push(v@[i as int]));
            v@.take(i as int).lemma_filter_push(v@[i as int], ne_room(r));
        }
        if x != r {
            out.push(x);
        }
        i += 1;
    }
    proof {
        assert(v@.take(v@.len() as int) =~= v@);
    }
    out
}

impl ProcessOfEliminationPlayer {
    /// The characters still believed possible, in roster order.
    pub fn candidate_characters(&self) -> (out: &Vec<Character>)
        ensures
            out@ == self@.characters,
    {
        &self.possible_characters
    }

    /// The weapons still believed possible, in roster order.
    pub fn candidate_weapons(&self) -> (out: &Vec<Weapon>)
        ensures
            out@ == self@.weapons,
    {
        &self.possible_weapons
    }

    /// The rooms still believed possible, in roster order.
    pub fn candidate_rooms(&self) -> (out: &Vec<Room>)
        ensures
            out@ == self@.rooms,
    {
        &self.possible_rooms
    }

    /// Strike one seen card from the candidate set of its category.
    pub fn eliminate_card(&mut self, card: Card)
        ensures
            final(self)@ == eliminate_from_belief(old(self)@, card),
    {
        match card {
            Card::Character(c) => {
                self.possible_characters = retain_ne_character(&self.possible_characters, c);
            },
            Card::Weapon(w) => {
                self.possible_weapons = retain_ne_weapon(&self.possible_weapons, w);
            },
            Card::Room(r) => {
                self.possible_rooms = retain_ne_room(&self.possible_rooms, r);
            },
        }
    }
}

impl Player for ProcessOfEliminationPlayer {
    fn new(position: usize, number_of_players: usize, hand: Vec<Card>) -> (out: Self)
        ensures
            out@ == initial_belief(position as int, hand@),
    {
        let mut out = ProcessOfEliminationPlayer {
            position,
            possible_characters: Character::full_list(),
            possible_weapons: Weapon::full_list(),
            possible_rooms: Room::full_list(),
        };
        proof {
            assert(hand@.take(0) =~= Seq::<Card>::empty());
            lemma_filter_true(all_characters(), char_not_in(hand@.take(0)));
            lemma_filter_true(all_weapons(), weapon_not_in(hand@.take(0)));
            lemma_filter_true(all_rooms(), room_not_in(hand@.take(0)));
        }
        let mut i: usize = 0;
        while i < hand.len()
            invariant
                i <= hand@.len(),
                out@ == initial_belief(position as int, hand@.take(i as int)),
            decreases hand@.len() - i,
        {
            let card = hand[i];
            proof {
                assert(hand@.take(i + 1) =~= hand@.take(i as int).push(hand@[i as int]));
                lemma_initial_belief_step(position as int, hand@, i as int);
            }
            out.eliminate_card(card);
            i += 1;
        }
        proof {
            assert(hand@.take(hand@.len() as int) =~= hand@);
        }
        out
    }

    fn make_guess(&self) -> (g: Guess)
        ensures
            g == belief_guess(self@),
    {
        if self.possible_characters.len() == 1 && self.possible_weapons.len() == 1
            && self.possible_rooms.len() == 1 {
            return Guess::Accuse(
                self.possible_characters[0],
                self.possible_weapons[0],
                self.possible_rooms[0],
            );
        }
        let c = if self.possible_characters.len() >= 1 {
            self.possible_characters[0]
        } else {
            Character::SCARLET
        };
        let w = if self.possible_weapons.len() >= 1 {
            self.possible_weapons[0]
        } else {
            Weapon::PIPE
        };
        let r = if self.possible_rooms.len() >= 1 {
            self.possible_rooms[0]
        } else {
            Room::KITCHEN
        };
        Guess::Suggest(c, w, r)
    }

    fn handle_response(&mut self, guess_from: usize, guess: Guess, response: Option<Response>)
        ensures
            final(self)@ == belief_after_response(old(self)@, guess_from as int, guess, response),
    {
        match response {
            Some(resp) => {
                if let Some(card) = resp.card {
                    self.eliminate_card(card);
                }
            },
            None => {
                if guess_from != self.position {
                    return ;
                }
                if let Guess::Suggest(c, w, r) = guess {
                    self.possible_characters = vec![c];
                    self.possible_weapons = vec![w];
                    self.possible_rooms = vec![r];
                    proof {
                        assert(self.possible_characters@ =~= seq![c]);
                        assert(self.possible_weapons@ =~= seq![w]);
                        assert(self.possible_rooms@ =~= seq![r]);
                    }
                }
            },
        }
    }
}

/// Striking the cards of a hand one at a time, in order, reaches the same
/// belief as striking the whole hand at once.
proof fn lemma_initial_belief_step(position: int, hand: Seq<Card>, i: int)
    requires
        0 <= i < hand.len(),
    ensures
        eliminate_from_belief(initial_belief(position, hand.take(i)), hand[i])
            == initial_belief(position, hand.take(i + 1)),
{
    assert(hand.take(i + 1) =~= hand.take(i).push(hand[i]));
    assert forall|y: Card| #[trigger] hand.take(i + 1).contains(y) == (hand.take(i).contains(y)
        || y == hand[i]) by {
        if hand.take(i).contains(y) || y == hand[i] {
            assert(hand.take(i).push(hand[i]).contains(y));
        } else {
            assert(!hand.take(i).push(hand[i]).contains(y));
        }
    };
    match hand[i] {
        Card::Character(c) => {
            lemma_filter_compose(
                all_characters(),
                char_not_in(hand.take(i)),
                ne_char(c),
                char_not_in(hand.take(i + 1)),
            );
            assert(all_weapons().filter(weapon_not_in(hand.take(i)))
                == all_weapons().filter(weapon_not_in(hand.take(i + 1)))) by {
                lemma_filter_congruent(
                    all_weapons(),
                    weapon_not_in(hand.take(i)),
                    weapon_not_in(hand.take(i + 1)),
                );
            }
            assert(all_rooms().filter(room_not_in(hand.take(i)))
                == all_rooms().filter(room_not_in(hand.take(i + 1)))) by {
                lemma_filter_congruent(
                    all_rooms(),
                    room_not_in(hand.take(i)),
                    room_not_in(hand.take(i + 1)),
                );
            }
        },
        Card::Weapon(w) => {
            lemma_filter_compose(
                all_weapons(),
                weapon_not_in(hand.take(i)),
                ne_weapon(w),
                weapon_not_in(hand.take(i + 1)),
            );
            assert(all_characters().filter(char_not_in(hand.take(i)))
                == all_characters().filter(char_not_in(hand.take(i + 1)))) by {
                lemma_filter_congruent(
                    all_characters(),
                    char_not_in(hand.take(i)),
                    char_not_in(hand.take(i + 1)),
                );
            }
            assert(all_rooms().filter(room_not_in(hand.take(i)))
                == all_rooms().filter(room_not_in(hand.take(i + 1)))) by {
                lemma_filter_congruent(
                    all_rooms(),
                    room_not_in(hand.take(i)),
                    room_not_in(hand.take(i + 1)),
                );
            }
        },
        Card::Room(r) => {
            lemma_filter_compose(
                all_rooms(),
                room_not_in(hand.take(i)),
                ne_room(r),
                room_not_in(hand.take(i + 1)),
            );
            assert(all_characters().filter(char_not_in(hand.take(i)))
                == all_characters().filter(char_not_in(hand.take(i + 1)))) by {
                lemma_filter_congruent(
                    all_characters(),
                    char_not_in(hand.take(i)),
                    char_not_in(hand.take(i + 1)),
                );
            }
            assert(all_weapons().filter(weapon_not_in(hand.take(i)))
                == all_weapons().filter(weapon_not_in(hand.take(i + 1)))) by {
                lemma_filter_congruent(
                    all_weapons(),
                    weapon_not_in(hand.take(i)),
                    weapon_not_in(hand.take(i + 1)),
                );
            }
        },
    }
}

/// Law: a freshly built belief still holds the true solution members, since
/// a dealt hand never holds a solution card (see the never-dealt law of the
/// deal).
pub proof fn lemma_initial_belief_contains_solution(
    position: int,
    hand: Seq<Card>,
    solution: (Character, Weapon, Room),
)
    requires
        !hand.contains(Card::Character(solution.0)),
        !hand.contains(Card::Weapon(solution.1)),
        !hand.contains(Card::Room(solution.2)),
    ensures
        initial_belief(position, hand).characters.contains(solution.0),
        initial_belief(position, hand).weapons.contains(solution.1),
        initial_belief(position, hand).rooms.contains(solution.2),
{
    let sc = all_characters();
    assert(sc.contains(solution.0)) by {
        match solution.0 {
            Character::SCARLET => assert(sc[0] == solution.0),
            Character::MUSTARD => assert(sc[1] == solution.0),
            Character::WHITE => assert(sc[2] == solution.0),
            Character::PLUM => assert(sc[3] == solution.0),
            Character::PEACOCK => assert(sc[4] == solution.0),
            Character::GREEN => assert(sc[5] == solution.0),
        }
    }
    let i = choose|i: int| 0 <= i < sc.len() && sc[i] == solution.0;
    assert(char_not_in(hand)(sc[i]));
    sc.lemma_filter_contains(char_not_in(hand), i);
    let sw = all_weapons();
    assert(sw.contains(solution.1)) by {
        match solution.1 {
            Weapon::PIPE => assert(sw[0] == solution.1),
            Weapon::ROPE => assert(sw[1] == solution.1),
            Weapon::DAGGER => assert(sw[2] == solution.1),
            Weapon::REVOLVER => assert(sw[3] == solution.1),
            Weapon::CANDLESTICK => assert(sw[4] == solution.1),
        }
    }
    let j = choose|j: int| 0 <= j < sw.len() && sw[j] == solution.1;
    assert(weapon_not_in(hand)(sw[j]));
    sw.lemma_filter_contains(weapon_not_in(hand), j);
    let sr = all_rooms();
    assert(sr.contains(solution.2)) by {
        match solution.2 {
            Room::KITCHEN => assert(sr[0] == solution.2),
            Room::BALLROOM => assert(sr[1] == solution.2),
            Room::CONSERVATORY => assert(sr[2] == solution.2),
            Room::BILLIARD_ROOM => assert(sr[3] == solution.2),
            Room::LIBRARY => assert(sr[4] == solution.2),
            Room::STUDY => assert(sr[5] == solution.2),
            Room::HALL => assert(sr[6] == solution.2),
            Room::LOUNGE => assert(sr[7] == solution.2),
            Room::DINING_ROOM => assert(sr[8] == solution.2),
        }
    }
    let k = choose|k: int| 0 <= k < sr.len() && sr[k] == solution.2;
    assert(room_not_in(hand)(sr[k]));
    sr.lemma_filter_contains(room_not_in(hand), k);
}

/// Law: once every candidate set is a singleton that still holds the true
/// solution member, the agent's guess is exactly the correct accusation.
pub proof fn lemma_singleton_belief_accuses_solution(
    v: BeliefView,
    solution: (Character, Weapon, Room),
)
    requires
        v.characters.len() == 1,
        v.weapons.len() == 1,
        v.rooms.len() == 1,
        v.characters.contains(solution.0),
        v.weapons.contains(solution.1),
        v.rooms.contains(solution.2),
    ensures
        belief_guess(v) == Guess::Accuse(solution.0, solution.1, solution.2),
{
    let i = choose|i: int| 0 <= i < v.characters.len() && v.characters[i] == solution.0;
    assert(v.characters[0] == solution.0);
    let j = choose|j: int| 0 <= j < v.weapons.len() && v.weapons[j] == solution.1;
    assert(v.weapons[0] == solution.1);
    let k = choose|k: int| 0 <= k < v.rooms.len() && v.rooms[k] == solution.2;
    assert(v.rooms[0] == solution.2);
}

/// Law: elimination is monotone. Whatever one observed response does to an
/// eliminating agent's belief, no candidate set gains a member and none grows
/// in size. The one premise is the engine's: on a table-wide "no response"
/// the guess handed back to its suggester is the suggester's own, so its
/// components are still candidates.
pub proof fn lemma_elimination_monotone(
    v: BeliefView,
    guess_from: int,
    guess: Guess,
    response: Option<Response>,
)
    requires
        (match guess {
            Guess::Suggest(c, w, r) => (response is None && guess_from == v.position)
                ==> (v.characters.contains(c) && v.weapons.contains(w) && v.rooms.contains(r)),
            Guess::Accuse(..) => true,
        }),
    ensures
        belief_after_response(v, guess_from, guess, response).characters.len()
            <= v.characters.len(),
        belief_after_response(v, guess_from, guess, response).weapons.len() <= v.weapons.len(),
        belief_after_response(v, guess_from, guess, response).rooms.len() <= v.rooms.len(),
        forall|x: Character|
            belief_after_response(v, guess_from, guess, response).characters.contains(x)
                ==> v.characters.contains(x),
        forall|x: Weapon|
            belief_after_response(v, guess_from, guess, response).weapons.contains(x)
                ==> v.weapons.contains(x),
        forall|x: Room|
            belief_after_response(v, guess_from, guess, response).rooms.contains(x)
                ==> v.rooms.contains(x),
{
    let after = belief_after_response(v, guess_from, guess, response);
    match response {
        Some(resp) => match resp.card {
            Some(card) => {
                match card {
                    Card::Character(c) => {
                        assert forall|x: Character| after.characters.contains(x)
                            implies v.characters.contains(x) by {
                            v.characters.lemma_filter_contains_rev(ne_char(c), x);
                        };
                    },
                    Card::Weapon(w) => {
                        assert forall|x: Weapon| after.weapons.contains(x)
                            implies v.weapons.contains(x) by {
                            v.weapons.lemma_filter_contains_rev(ne_weapon(w), x);
                        };
                    },
                    Card::Room(r) => {
                        assert forall|x: Room| after.rooms.contains(x)
                            implies v.rooms.contains(x) by {
                            v.rooms.lemma_filter_contains_rev(ne_room(r), x);
                        };
                    },
                }
            },
            None => {},
        },
        None => {
            if guess_from == v.position {
                match guess {
                    Guess::Suggest(c, w, r) => {
                        assert(after.characters =~= seq![c]);
                        assert(forall|x: Character| after.characters.contains(x) ==> x == c);
                        assert(forall|x: Weapon| after.weapons.contains(x) ==> x == w);
                        assert(forall|x: Room| after.rooms.contains(x) ==> x == r);
                    },
                    Guess::Accuse(..) => {},
                }
            }
        },
    }
}

/// Law: information consistent with the true solution keeps the true solution
/// in every candidate set. The premises are exactly what the engine delivers:
/// a shown card comes out of another seat's hand, so it is never a solution
/// card; and a table-wide "no response" to the agent's own suggestion means
/// the suggested triple is the solution itself (see
/// `lemma_unrefuted_suggestion_is_solution`).
pub proof fn lemma_elimination_retains_solution(
    v: BeliefView,
    guess_from: int,
    guess: Guess,
    response: Option<Response>,
    solution: (Character, Weapon, Room),
)
    requires
        v.characters.contains(solution.0),
        v.weapons.contains(solution.1),
        v.rooms.contains(solution.2),
        (match response {
            Some(resp) => match resp.card {
                Some(card) => card != Card::Character(solution.0) && card != Card::Weapon(
                    solution.1,
                ) && card != Card::Room(solution.2),
                None => true,
            },
            None => match guess {
                Guess::Suggest(c, w, r) => (guess_from == v.position) ==> (c == solution.0 && w
                    == solution.1 && r == solution.2),
                Guess::Accuse(..) => true,
            },
        }),
    ensures
        belief_after_response(v, guess_from, guess, response).characters.contains(solution.0),
        belief_after_response(v, guess_from, guess, response).weapons.contains(solution.1),
        belief_after_response(v, guess_from, guess, response).rooms.contains(solution.2),
{
    match response {
        Some(resp) => match resp.card {
            Some(card) => {
                match card {
                    Card::Character(c) => {
                        let i = choose|i: int|
                            0 <= i < v.characters.len() && v.characters[i] == solution.0;
                        v.characters.lemma_filter_contains(ne_char(c), i);
                    },
                    Card::Weapon(w) => {
                        let i = choose|i: int|
                            0 <= i < v.weapons.len() && v.weapons[i] == solution.1;
                        v.weapons.lemma_filter_contains(ne_weapon(w), i);
                    },
                    Card::Room(r) => {
                        let i = choose|i: int|
                            0 <= i < v.rooms.len() && v.rooms[i] == solution.2;
                        v.rooms.lemma_filter_contains(ne_room(r), i);
                    },
                }
            },
            None => {},
        },
        None => {
            if guess_from == v.position {
                match guess {
                    Guess::Suggest(c, w, r) => {
                        assert(seq![c][0] == c);
                        assert(seq![w][0] == w);
                        assert(seq![r][0] == r);
                    },
                    Guess::Accuse(..) => {},
                }
            }
        },
    }
}

/// Filters by pointwise-equal predicates are equal.
proof fn lemma_filter_congruent<A>(s: Seq<A>, p: spec_fn(A) -> bool, q: spec_fn(A) -> bool)
    requires
        forall|x: A| #[trigger] p(x) == q(x),
    ensures
        s.filter(p) == s.filter(q),
    decreases s.len(),
{
    reveal(Seq::filter);
    if s.len() != 0 {
        lemma_filter_congruent(s.drop_last(), p, q);
    }
}

} // verus!
