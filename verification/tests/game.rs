use blitz::error::Error;
use blitz::models::card::{Card, CardFace, CardSuit};
use blitz::models::deck::Deck;
use blitz::models::game::{Game, GameState, Turn};
use blitz::models::player::Player;

use CardFace::{Ace, Eight, Five, Four, Jack, King, Nine, Queen, Seven, Six, Three, Two};
use CardSuit::{Club, Diamond, Heart, Spade};

fn card(suit: CardSuit, face: CardFace) -> Card {
    Card::new(suit, face)
}

fn player(id: &str) -> Player {
    Player { id: id.to_string(), name: format!("player {}", id), hand: None, lives: 4 }
}

/// The cards of a pile, top first.
fn cards_of(pile: &Deck) -> Vec<Card> {
    let mut copy = pile.clone();
    let mut cards = Vec::new();
    while let Some(card) = copy.next() {
        cards.push(card);
    }
    cards
}

/// A pack of 52 cards that hands out `first` in the order given, and then
/// the other cards in the order of a fresh pack.
fn stacked(first: &[Card]) -> Deck {
    let mut order: Vec<Card> = first.to_vec();
    let mut pack = Deck::new_52();
    let mut rest = Vec::new();
    while let Some(card) = pack.next() {
        if !first.contains(&card) {
            rest.push(card);
        }
    }
    rest.reverse();
    order.extend(rest);
    assert_eq!(order.len(), 52);
    let mut deck = Deck::new();
    for card in order.iter().rev() {
        deck.push(*card);
    }
    deck
}

/// A game of the players named, waiting, with the stacked pack as its deck.
fn table(ids: &[&str], first: &[Card]) -> Game {
    let mut game = Game::with_deck(player(ids[0]), stacked(first));
    for id in &ids[1..] {
        game.join(player(id)).unwrap();
    }
    game
}

fn lives(game: &Game, id: &str) -> u8 {
    game.player(id).unwrap().lives
}

fn turn_of(game: &Game) -> (usize, Option<usize>) {
    match game.state() {
        GameState::Started { turn, knocked } => (*turn, *knocked),
        _ => panic!("no round is on"),
    }
}

/// Two players; the first holds 4, the second 20.
fn low_and_high() -> Vec<Card> {
    vec![
        card(Spade, Two),
        card(Heart, Three),
        card(Diamond, Four),
        card(Club, King),
        card(Club, Queen),
        card(Heart, Five),
        card(Diamond, Nine),
        card(Spade, Six),
        card(Spade, Seven),
    ]
}

/// Two players who both hold 4, and a card to draw that keeps it so.
fn level() -> Vec<Card> {
    vec![
        card(Spade, Two),
        card(Heart, Three),
        card(Diamond, Four),
        card(Heart, Two),
        card(Diamond, Three),
        card(Club, Four),
        card(Spade, Nine),
        card(Spade, Four),
    ]
}

/// Three players; the first holds 4, the others 20, and cards to draw that
/// keep it so.
fn one_low_two_high() -> Vec<Card> {
    vec![
        card(Spade, Two),
        card(Heart, Three),
        card(Diamond, Four),
        card(Club, King),
        card(Club, Queen),
        card(Heart, Five),
        card(Diamond, King),
        card(Diamond, Queen),
        card(Heart, Six),
        card(Spade, Nine),
        card(Heart, Seven),
        card(Heart, Eight),
    ]
}

#[test]
fn new_game_waits_with_its_founder_and_a_full_deck() {
    let game = Game::new(player("a"));
    assert!(matches!(game.state(), GameState::Waiting));
    assert_eq!(game.players().len(), 1);
    assert_eq!(game.player("a").unwrap().name, "player a");
    assert!(game.player("b").is_none());
    assert_eq!(game.deck().len(), 52);
    assert_eq!(game.discard().len(), 0);
    assert_eq!(game.get_discard(), Err(Error::DeckEmpty));
    assert_eq!(game.next_turn(), 0);
}

#[test]
fn new_game_shuffles_its_deck() {
    let game = Game::new(player("a"));
    let fresh = cards_of(&Deck::new_52());
    let shuffled = cards_of(game.deck());
    assert_ne!(shuffled, fresh);
    assert_eq!(shuffled.len(), 52);
    for card in fresh.iter() {
        assert_eq!(shuffled.iter().filter(|c| *c == card).count(), 1);
    }
}

#[test]
fn with_deck_keeps_the_deck_as_it_is() {
    let game = Game::with_deck(player("a"), stacked(&low_and_high()));
    assert!(matches!(game.state(), GameState::Waiting));
    assert_eq!(game.deck().len(), 52);
    assert_eq!(game.deck().top(), Some(&card(Spade, Two)));
    assert_eq!(game.discard().len(), 0);
}

#[test]
fn join_seats_up_to_six_players() {
    let mut game = Game::new(player("a"));
    for id in ["b", "c", "d", "e", "f"] {
        assert_eq!(game.join(player(id)), Ok(()));
    }
    assert_eq!(game.players().len(), 6);
    assert_eq!(game.join(player("g")), Err(Error::MaxPlayersReached));
    assert_eq!(game.players().len(), 6);
    assert!(game.player("g").is_none());
    assert_eq!(game.players()[5].id, "f");
}

#[test]
fn join_and_leave_fail_once_a_round_has_started() {
    let mut game = table(&["a", "b"], &low_and_high());
    game.start_round().unwrap();
    assert_eq!(game.join(player("c")), Err(Error::GameAlreadyStarted));
    assert_eq!(game.leave(0), Err(Error::GameAlreadyStarted));
    assert_eq!(game.leave(9), Err(Error::GameAlreadyStarted));
    assert_eq!(game.players().len(), 2);
}

#[test]
fn join_fails_on_a_full_table_that_has_started() {
    let mut game = table(&["a", "b", "c", "d", "e", "f"], &low_and_high());
    game.start_round().unwrap();
    assert_eq!(game.join(player("g")), Err(Error::GameAlreadyStarted));
}

#[test]
fn leave_moves_the_players_behind_up() {
    let mut game = table(&["a", "b", "c"], &low_and_high());
    assert_eq!(game.leave(3), Err(Error::InvalidPlayerIndex(3)));
    assert_eq!(game.leave(0), Ok(()));
    assert_eq!(game.players().len(), 2);
    assert_eq!(game.players()[0].id, "b");
    assert_eq!(game.players()[1].id, "c");
    assert!(game.player("a").is_none());
    assert_eq!(game.player("c").unwrap().id, "c");
    assert_eq!(game.leave(1), Ok(()));
    assert_eq!(game.leave(0), Ok(()));
    assert_eq!(game.players().len(), 0);
    assert_eq!(game.leave(0), Err(Error::InvalidPlayerIndex(0)));
}

#[test]
fn player_finds_the_last_of_a_shared_name() {
    let mut game = Game::new(player("a"));
    let mut twin = player("a");
    twin.name = "the other".to_string();
    game.join(player("b")).unwrap();
    game.join(twin).unwrap();
    assert_eq!(game.player("a").unwrap().name, "the other");
    game.leave(2).unwrap();
    assert_eq!(game.player("a").unwrap().name, "player a");
}

#[test]
fn start_round_deals_three_cards_each_and_turns_one_over() {
    for n in 1..=6 {
        let ids = ["a", "b", "c", "d", "e", "f"];
        let mut game = table(&ids[..n], &low_and_high());
        assert_eq!(game.start_round(), Ok(()));
        assert_eq!(game.deck().len(), 52 - (3 * n + 1));
        assert_eq!(game.discard().len(), 1);
        assert_eq!(game.players().len(), n);
        for seated in game.players() {
            assert_eq!(seated.lives, 4);
            assert_eq!(seated.hand.unwrap().cards().len(), 3);
        }
        assert_eq!(turn_of(&game), (0, None));
    }
}

#[test]
fn start_round_deals_from_the_top_seat_by_seat() {
    let mut game = table(&["a", "b"], &low_and_high());
    game.start_round().unwrap();
    let a = game.player("a").unwrap().hand.unwrap();
    let b = game.player("b").unwrap().hand.unwrap();
    assert_eq!(a.cards(), [&card(Spade, Two), &card(Heart, Three), &card(Diamond, Four)]);
    assert_eq!(b.cards(), [&card(Club, King), &card(Club, Queen), &card(Heart, Five)]);
    assert_eq!(game.get_discard(), Ok(card(Diamond, Nine)));
    assert_eq!(game.deck().top(), Some(&card(Spade, Six)));
}

#[test]
fn start_round_gives_everybody_four_lives() {
    let mut weak = player("b");
    weak.lives = 1;
    let mut game = Game::new(player("a"));
    game.join(weak).unwrap();
    game.start_round().unwrap();
    assert_eq!(lives(&game, "b"), 4);
}

#[test]
fn start_round_fails_while_a_round_is_on() {
    let mut game = table(&["a", "b"], &low_and_high());
    game.start_round().unwrap();
    assert_eq!(game.start_round(), Err(Error::GameAlreadyStarted));
    assert_eq!(game.start_round_with(Deck::new_52()), Err(Error::GameAlreadyStarted));
    assert_eq!(game.deck().len(), 45);
    assert_eq!(turn_of(&game), (0, None));
}

#[test]
fn play_turn_fails_before_the_first_round() {
    let mut game = Game::new(player("a"));
    assert_eq!(game.play_turn(Turn::Knock), Err(Error::GameNotStarted));
    assert_eq!(game.play_turn(Turn::Draw { index: 0 }), Err(Error::GameNotStarted));
    assert_eq!(game.play_turn(Turn::DrawDiscard { index: 0 }), Err(Error::GameNotStarted));
    assert_eq!(game.deck().len(), 52);
}

#[test]
fn play_turn_fails_at_an_empty_table() {
    let mut game = Game::new(player("a"));
    game.leave(0).unwrap();
    assert_eq!(game.start_round(), Ok(()));
    assert_eq!(turn_of(&game), (0, None));
    assert_eq!(game.deck().len(), 51);
    assert_eq!(game.play_turn(Turn::Knock), Err(Error::InvalidPlayerIndex(0)));
    assert_eq!(game.next_turn(), 0);
}

#[test]
fn draw_takes_the_top_of_the_deck_and_discards() {
    let mut game = table(&["a", "b"], &low_and_high());
    game.start_round().unwrap();
    assert_eq!(game.play_turn(Turn::Draw { index: 1 }), Ok(()));
    let a = game.player("a").unwrap().hand.unwrap();
    assert_eq!(a.cards(), [&card(Spade, Two), &card(Spade, Six), &card(Diamond, Four)]);
    assert_eq!(game.get_discard(), Ok(card(Heart, Three)));
    assert_eq!(game.discard().len(), 2);
    assert_eq!(game.deck().len(), 44);
    assert_eq!(game.deck().top(), Some(&card(Spade, Seven)));
    assert_eq!(turn_of(&game), (1, None));
}

#[test]
fn draw_discard_takes_the_top_of_the_pile_and_discards() {
    let mut game = table(&["a", "b"], &low_and_high());
    game.start_round().unwrap();
    assert_eq!(game.play_turn(Turn::DrawDiscard { index: 2 }), Ok(()));
    let a = game.player("a").unwrap().hand.unwrap();
    assert_eq!(a.cards(), [&card(Spade, Two), &card(Heart, Three), &card(Diamond, Nine)]);
    assert_eq!(game.get_discard(), Ok(card(Diamond, Four)));
    assert_eq!(game.discard().len(), 1);
    assert_eq!(game.deck().len(), 45);
    assert_eq!(turn_of(&game), (1, None));
}

#[test]
fn a_slot_that_is_not_there_is_refused_and_nothing_is_drawn() {
    let mut game = table(&["a", "b"], &low_and_high());
    game.start_round().unwrap();
    assert_eq!(game.play_turn(Turn::Draw { index: 3 }), Err(Error::InvalidHandIndex(3)));
    assert_eq!(game.play_turn(Turn::DrawDiscard { index: 7 }), Err(Error::InvalidHandIndex(7)));
    assert_eq!(game.deck().len(), 45);
    assert_eq!(game.discard().len(), 1);
    assert_eq!(game.get_discard(), Ok(card(Diamond, Nine)));
    assert_eq!(turn_of(&game), (0, None));
}

#[test]
fn knock_gives_the_other_player_one_more_turn() {
    let mut game = table(&["a", "b"], &low_and_high());
    game.start_round().unwrap();
    assert_eq!(game.play_turn(Turn::Knock), Ok(()));
    assert_eq!(turn_of(&game), (1, Some(0)));
    assert_eq!(game.play_turn(Turn::Knock), Err(Error::PlayerAlreadyKnocked(0)));
    assert_eq!(turn_of(&game), (1, Some(0)));
    assert_eq!(game.play_turn(Turn::Draw { index: 2 }), Ok(()));
    match game.state() {
        GameState::RoundEnded { eliminated } => assert!(eliminated.is_empty()),
        _ => panic!("the round goes on"),
    }
    assert_eq!(lives(&game, "a"), 2);
    assert_eq!(lives(&game, "b"), 4);
    assert_eq!(game.play_turn(Turn::Knock), Err(Error::RoundNotStarted));
    assert_eq!(game.play_turn(Turn::Draw { index: 0 }), Err(Error::RoundNotStarted));
    assert_eq!(game.join(player("c")), Err(Error::GameAlreadyStarted));
    assert_eq!(game.leave(0), Err(Error::GameAlreadyStarted));
    assert_eq!(game.next_turn(), 0);
}

#[test]
fn knock_lets_every_other_player_play_once() {
    let first = vec![
        card(Spade, Two),
        card(Heart, Three),
        card(Diamond, Four),
        card(Heart, Two),
        card(Diamond, Three),
        card(Club, Four),
        card(Diamond, Two),
        card(Club, Three),
        card(Spade, Four),
        card(Club, Two),
        card(Spade, Three),
        card(Heart, Four),
        card(Spade, Nine),
        card(Spade, Five),
        card(Heart, Five),
        card(Diamond, Five),
        card(Club, Six),
    ];
    let mut game = table(&["a", "b", "c", "d"], &first);
    game.start_round().unwrap();
    assert_eq!(game.next_turn(), 1);
    assert_eq!(game.play_turn(Turn::Draw { index: 0 }), Ok(()));
    assert_eq!(turn_of(&game), (1, None));
    assert_eq!(game.play_turn(Turn::Knock), Ok(()));
    assert_eq!(turn_of(&game), (2, Some(1)));
    assert_eq!(game.play_turn(Turn::Draw { index: 0 }), Ok(()));
    assert_eq!(turn_of(&game), (3, Some(1)));
    assert_eq!(game.next_turn(), 0);
    assert_eq!(game.play_turn(Turn::Draw { index: 0 }), Ok(()));
    assert_eq!(turn_of(&game), (0, Some(1)));
    assert_eq!(game.play_turn(Turn::Draw { index: 0 }), Ok(()));
    assert!(matches!(game.state(), GameState::RoundEnded { .. }));
    assert_eq!(game.player("a").unwrap().hand.unwrap().value(), 6);
    assert_eq!(game.player("b").unwrap().hand.unwrap().value(), 4);
    assert_eq!(game.player("c").unwrap().hand.unwrap().value(), 5);
    assert_eq!(game.player("d").unwrap().hand.unwrap().value(), 5);
    assert_eq!(lives(&game, "a"), 4);
    assert_eq!(lives(&game, "b"), 2);
    assert_eq!(lives(&game, "c"), 4);
    assert_eq!(lives(&game, "d"), 4);
}

#[test]
fn a_hand_of_31_ends_the_round_at_once() {
    let first = vec![
        card(Spade, Ace),
        card(Spade, King),
        card(Heart, Two),
        card(Diamond, Three),
        card(Diamond, Four),
        card(Club, Five),
        card(Spade, Queen),
        card(Spade, Jack),
    ];
    let mut game = table(&["a", "b"], &first);
    game.start_round().unwrap();
    assert_eq!(game.play_turn(Turn::DrawDiscard { index: 2 }), Ok(()));
    assert!(matches!(game.state(), GameState::RoundEnded { .. }));
    assert_eq!(game.player("a").unwrap().hand.unwrap().value(), 31);
    assert_eq!(game.get_discard(), Ok(card(Heart, Two)));
    assert_eq!(lives(&game, "a"), 4);
    assert_eq!(lives(&game, "b"), 3);

    let mut game = table(&["a", "b"], &first);
    game.start_round().unwrap();
    assert_eq!(game.play_turn(Turn::Draw { index: 2 }), Ok(()));
    assert!(matches!(game.state(), GameState::RoundEnded { .. }));
    assert_eq!(game.player("a").unwrap().hand.unwrap().value(), 31);
    assert_eq!(lives(&game, "a"), 4);
    assert_eq!(lives(&game, "b"), 3);
}

#[test]
fn a_hand_of_31_spares_nobody_else() {
    let first = vec![
        card(Spade, Two),
        card(Heart, Three),
        card(Diamond, Four),
        card(Club, Ace),
        card(Club, King),
        card(Heart, Five),
        card(Diamond, King),
        card(Diamond, Queen),
        card(Diamond, Jack),
        card(Spade, Nine),
        card(Club, Queen),
    ];
    let mut game = table(&["a", "b", "c"], &first);
    game.start_round().unwrap();
    assert_eq!(game.play_turn(Turn::Knock), Ok(()));
    assert_eq!(turn_of(&game), (1, Some(0)));
    assert_eq!(game.play_turn(Turn::Draw { index: 2 }), Ok(()));
    assert!(matches!(game.state(), GameState::RoundEnded { .. }));
    assert_eq!(game.player("b").unwrap().hand.unwrap().value(), 31);
    assert_eq!(game.player("c").unwrap().hand.unwrap().value(), 30);
    assert_eq!(lives(&game, "a"), 2);
    assert_eq!(lives(&game, "b"), 4);
    assert_eq!(lives(&game, "c"), 3);
}

#[test]
fn all_who_tie_at_the_lowest_score_lose() {
    let mut game = table(&["a", "b"], &level());
    game.start_round().unwrap();
    assert_eq!(game.play_turn(Turn::Knock), Ok(()));
    assert_eq!(game.play_turn(Turn::Draw { index: 2 }), Ok(()));
    assert!(matches!(game.state(), GameState::RoundEnded { .. }));
    assert_eq!(lives(&game, "a"), 2);
    assert_eq!(lives(&game, "b"), 3);
}

#[test]
fn a_round_that_leaves_nobody_alive_cannot_be_settled() {
    let mut game = table(&["a", "b"], &level());
    game.start_round().unwrap();
    game.play_turn(Turn::Knock).unwrap();
    game.play_turn(Turn::Draw { index: 2 }).unwrap();
    assert_eq!((lives(&game, "a"), lives(&game, "b")), (2, 3));

    assert_eq!(game.start_round_with(stacked(&level())), Ok(()));
    assert_eq!(game.play_turn(Turn::Draw { index: 0 }), Ok(()));
    assert_eq!(game.play_turn(Turn::Knock), Ok(()));
    assert_eq!(turn_of(&game), (0, Some(1)));
    assert_eq!(game.play_turn(Turn::DrawDiscard { index: 0 }), Ok(()));
    assert!(matches!(game.state(), GameState::RoundEnded { .. }));
    assert_eq!((lives(&game, "a"), lives(&game, "b")), (1, 1));

    assert_eq!(game.start_round_with(stacked(&level())), Ok(()));
    assert_eq!(lives(&game, "a"), 1);
    assert_eq!(game.play_turn(Turn::Knock), Ok(()));
    assert_eq!(game.play_turn(Turn::Draw { index: 2 }), Err(Error::NoMorePlayers));
    assert_eq!((lives(&game, "a"), lives(&game, "b")), (0, 0));
    assert_eq!(turn_of(&game), (1, Some(0)));
    assert_eq!(game.play_turn(Turn::Knock), Err(Error::NoMorePlayers));
    assert_eq!(game.play_turn(Turn::Draw { index: 0 }), Err(Error::NoMorePlayers));
    assert_eq!(game.start_round(), Err(Error::GameAlreadyStarted));

    game.reset();
    assert!(matches!(game.state(), GameState::Waiting));
    assert_eq!((lives(&game, "a"), lives(&game, "b")), (4, 4));
}

#[test]
fn a_player_without_lives_sits_out_the_next_round() {
    let mut game = table(&["a", "b", "c"], &one_low_two_high());
    game.start_round().unwrap();
    game.play_turn(Turn::Knock).unwrap();
    game.play_turn(Turn::Draw { index: 2 }).unwrap();
    assert_eq!(turn_of(&game), (2, Some(0)));
    game.play_turn(Turn::Draw { index: 2 }).unwrap();
    match game.state() {
        GameState::RoundEnded { eliminated } => assert!(eliminated.is_empty()),
        _ => panic!("the round goes on"),
    }
    assert_eq!((lives(&game, "a"), lives(&game, "b"), lives(&game, "c")), (2, 4, 4));

    game.start_round_with(stacked(&one_low_two_high())).unwrap();
    assert_eq!(game.deck().len(), 42);
    game.play_turn(Turn::Knock).unwrap();
    game.play_turn(Turn::Draw { index: 2 }).unwrap();
    game.play_turn(Turn::Draw { index: 2 }).unwrap();
    match game.state() {
        GameState::RoundEnded { eliminated } => {
            assert_eq!(eliminated.len(), 1);
            assert_eq!(eliminated[0].id, "a");
            assert_eq!(eliminated[0].lives, 0);
        },
        _ => panic!("the round goes on"),
    }
    assert_eq!((lives(&game, "a"), lives(&game, "b"), lives(&game, "c")), (0, 4, 4));

    game.start_round_with(stacked(&one_low_two_high())).unwrap();
    assert!(game.player("a").unwrap().hand.is_none());
    let b = game.player("b").unwrap().hand.unwrap();
    let c = game.player("c").unwrap().hand.unwrap();
    assert_eq!(b.cards(), [&card(Spade, Two), &card(Heart, Three), &card(Diamond, Four)]);
    assert_eq!(c.cards(), [&card(Club, King), &card(Club, Queen), &card(Heart, Five)]);
    assert_eq!(game.get_discard(), Ok(card(Diamond, King)));
    assert_eq!(game.deck().len(), 52 - 7);
    assert_eq!(game.discard().len(), 1);
    assert_eq!(turn_of(&game), (1, None));
    assert_eq!(game.next_turn(), 2);

    game.play_turn(Turn::Knock).unwrap();
    assert_eq!(turn_of(&game), (2, Some(1)));
    assert_eq!(game.next_turn(), 1);
    game.play_turn(Turn::Draw { index: 0 }).unwrap();
    assert!(matches!(game.state(), GameState::RoundEnded { .. }));
    assert_eq!((lives(&game, "a"), lives(&game, "b"), lives(&game, "c")), (0, 2, 4));
}

#[test]
fn the_game_ends_when_one_player_is_left() {
    let mut game = table(&["a", "b"], &low_and_high());
    game.start_round().unwrap();
    game.play_turn(Turn::Knock).unwrap();
    game.play_turn(Turn::Draw { index: 2 }).unwrap();
    assert!(matches!(game.state(), GameState::RoundEnded { .. }));
    game.start_round_with(stacked(&low_and_high())).unwrap();
    game.play_turn(Turn::Knock).unwrap();
    game.play_turn(Turn::Draw { index: 2 }).unwrap();
    match game.state() {
        GameState::GameEnded { winner } => {
            assert_eq!(winner.id, "b");
            assert_eq!(winner.lives, 4);
        },
        _ => panic!("the game goes on"),
    }
    assert_eq!(lives(&game, "a"), 0);
    assert_eq!(game.play_turn(Turn::Knock), Err(Error::GameNotStarted));
    assert_eq!(game.start_round(), Err(Error::GameAlreadyStarted));
    assert_eq!(game.join(player("c")), Err(Error::GameAlreadyStarted));
    assert_eq!(game.next_turn(), 0);
}

#[test]
fn a_lone_player_who_knocks_loses_two_lives_and_wins() {
    let mut game = table(&["a"], &low_and_high());
    game.start_round().unwrap();
    assert_eq!(game.next_turn(), 0);
    assert_eq!(game.play_turn(Turn::Draw { index: 0 }), Ok(()));
    assert_eq!(turn_of(&game), (0, None));
    assert_eq!(game.play_turn(Turn::Knock), Ok(()));
    match game.state() {
        GameState::GameEnded { winner } => {
            assert_eq!(winner.id, "a");
            assert_eq!(winner.lives, 2);
        },
        _ => panic!("the game goes on"),
    }
}

#[test]
fn a_later_round_is_dealt_from_a_new_pack() {
    let mut game = table(&["a", "b"], &low_and_high());
    game.start_round().unwrap();
    game.play_turn(Turn::Draw { index: 1 }).unwrap();
    game.play_turn(Turn::Knock).unwrap();
    game.play_turn(Turn::DrawDiscard { index: 1 }).unwrap();
    assert!(matches!(game.state(), GameState::RoundEnded { .. }));
    assert_eq!(game.start_round(), Ok(()));
    assert_eq!(game.deck().len(), 45);
    assert_eq!(game.discard().len(), 1);
    for seated in game.players() {
        assert!(seated.hand.is_some());
    }
    assert_eq!(turn_of(&game), (0, None));
}

#[test]
fn an_empty_deck_is_made_up_from_the_discard_pile() {
    let first = vec![card(Diamond, Four), card(Spade, Two), card(Heart, Three), card(Club, Five)];
    let mut game = table(&["a"], &first);
    game.start_round().unwrap();
    assert_eq!(game.deck().len(), 48);
    for drawn in 0..48 {
        assert_eq!(game.deck().len(), 48 - drawn);
        assert_eq!(game.discard().len(), 1 + drawn);
        assert_eq!(game.play_turn(Turn::Draw { index: 0 }), Ok(()));
        assert_eq!(turn_of(&game), (0, None));
    }
    assert_eq!(game.deck().len(), 0);
    assert_eq!(game.discard().len(), 49);
    let held = *game.player("a").unwrap().hand.unwrap().cards()[0];
    assert_eq!(game.play_turn(Turn::Draw { index: 0 }), Ok(()));
    assert_eq!(game.deck().len(), 47);
    assert_eq!(game.discard().len(), 2);
    assert_eq!(game.get_discard(), Ok(held));
    let hand = game.player("a").unwrap().hand.unwrap();
    assert_eq!(*hand.cards()[1], card(Spade, Two));
    assert_eq!(*hand.cards()[2], card(Heart, Three));
    assert_ne!(*hand.cards()[0], held);
}

#[test]
fn a_refused_slot_still_makes_up_an_empty_deck() {
    let first = vec![card(Diamond, Four), card(Spade, Two), card(Heart, Three), card(Club, Five)];
    let mut game = table(&["a"], &first);
    game.start_round().unwrap();
    for _ in 0..48 {
        game.play_turn(Turn::Draw { index: 0 }).unwrap();
    }
    assert_eq!(game.play_turn(Turn::DrawDiscard { index: 3 }), Err(Error::InvalidHandIndex(3)));
    assert_eq!((game.deck().len(), game.discard().len()), (0, 49));
    assert_eq!(game.play_turn(Turn::Draw { index: 3 }), Err(Error::InvalidHandIndex(3)));
    assert_eq!((game.deck().len(), game.discard().len()), (48, 1));
    assert_eq!(turn_of(&game), (0, None));
}

#[test]
fn reset_returns_to_waiting_from_every_phase() {
    let mut game = table(&["a", "b"], &low_and_high());
    game.reset();
    assert!(matches!(game.state(), GameState::Waiting));
    assert_eq!(game.deck().len(), 52);

    game.start_round().unwrap();
    game.play_turn(Turn::Knock).unwrap();
    game.reset();
    assert!(matches!(game.state(), GameState::Waiting));
    assert_eq!((game.deck().len(), game.discard().len()), (52, 0));
    for seated in game.players() {
        assert_eq!(seated.lives, 4);
        assert!(seated.hand.is_none());
    }
    assert_eq!(game.join(player("c")), Ok(()));

    game.reset_with(stacked(&low_and_high()));
    game.leave(2).unwrap();
    game.start_round().unwrap();
    game.play_turn(Turn::Knock).unwrap();
    game.play_turn(Turn::Draw { index: 2 }).unwrap();
    assert!(matches!(game.state(), GameState::RoundEnded { .. }));
    assert_eq!(lives(&game, "a"), 2);
    game.reset();
    assert!(matches!(game.state(), GameState::Waiting));
    assert_eq!(lives(&game, "a"), 4);
    assert!(game.player("a").unwrap().hand.is_none());

    game.reset_with(stacked(&low_and_high()));
    assert_eq!(game.deck().top(), Some(&card(Spade, Two)));
    for _ in 0..2 {
        game.start_round_with(stacked(&low_and_high())).unwrap();
        game.play_turn(Turn::Knock).unwrap();
        game.play_turn(Turn::Draw { index: 2 }).unwrap();
    }
    assert!(matches!(game.state(), GameState::GameEnded { .. }));
    game.reset();
    assert!(matches!(game.state(), GameState::Waiting));
    assert_eq!((lives(&game, "a"), lives(&game, "b")), (4, 4));
    assert_eq!(game.get_discard(), Err(Error::DeckEmpty));
    assert_eq!(game.players().len(), 2);
}

#[test]
fn cards_are_neither_lost_nor_made_in_play() {
    let mut game = table(&["a", "b", "c"], &one_low_two_high());
    game.start_round().unwrap();
    let moves = [
        Turn::Draw { index: 0 },
        Turn::DrawDiscard { index: 1 },
        Turn::Draw { index: 5 },
        Turn::Draw { index: 2 },
        Turn::DrawDiscard { index: 0 },
    ];
    for action in moves {
        game.play_turn(action).ok();
        let mut cards = cards_of(game.deck());
        cards.extend(cards_of(game.discard()));
        for seated in game.players() {
            if let Some(hand) = seated.hand {
                cards.extend(hand.cards().iter().map(|c| **c));
            }
        }
        assert_eq!(cards.len(), 52);
        for card in cards_of(&Deck::new_52()) {
            assert!(cards.contains(&card));
        }
    }
}
