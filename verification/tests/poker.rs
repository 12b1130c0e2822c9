use card_table::cards::Card;
use card_table::poker_state::{
    Action, Bet, BetAction, BetType, BettingStage, ConnectionAction, ConnectionActionType,
    GameError, GameState, PokerGame, MAX_SIZE,
};

fn text(s: &str) -> String {
    s.to_string()
}

fn connect(kind: ConnectionActionType, uuid: &str) -> Action {
    Action::Connection(ConnectionAction { action_type: kind, uuid: text(uuid) })
}

fn join(uuid: &str) -> Action {
    connect(ConnectionActionType::JOIN, uuid)
}

fn bet_action(uuid: &str, bet_type: BetType, value: i32) -> BetAction {
    BetAction { uuid: text(uuid), bet: Bet { bet_type, value } }
}

fn bet(uuid: &str, bet_type: BetType, value: i32) -> Action {
    Action::Bet(bet_action(uuid, bet_type, value))
}

/// One action as a room's task takes it: the action, then every phase that
/// needs none.
fn play(game: &mut PokerGame, action: Action) -> Result<(), GameError> {
    game.step(action).0
}

/// A room with the players seated in the order given, the first one owning it.
fn seated(players: &[&str]) -> PokerGame {
    let mut game = PokerGame::new();
    for p in players {
        assert_eq!(game.run(join(p)), Ok(()));
    }
    game
}

/// A room in its first betting round.
fn started(players: &[&str]) -> PokerGame {
    let mut game = seated(players);
    assert_eq!(game.run(connect(ConnectionActionType::START, players[0])), Ok(()));
    assert_eq!(game.state(), GameState::FLOPBETTING);
    game
}

fn all_cards(game: &PokerGame) -> Vec<Card> {
    let mut cards: Vec<Card> = game.deck().clone();
    cards.extend(game.community_cards().iter().cloned());
    for i in 0..game.seat_count() {
        cards.extend(game.seat(i).unwrap().hand().iter().cloned());
    }
    cards
}

fn assert_no_card_twice(cards: &[Card]) {
    for i in 0..cards.len() {
        for j in (i + 1)..cards.len() {
            assert_ne!(cards[i], cards[j]);
        }
    }
}

#[test]
fn game_state_next_walks_the_phases() {
    let order = [
        GameState::INITIAL,
        GameState::BLIND,
        GameState::DEAL,
        GameState::FLOPBETTING,
        GameState::FLOP,
        GameState::TURNBETTING,
        GameState::TURN,
        GameState::RIVERBETTING,
        GameState::RIVER,
        GameState::SHOWDOWN,
        GameState::POTDISTRIBUTION,
        GameState::TERMINAL,
    ];
    for i in 0..order.len() - 1 {
        assert_eq!(order[i].next(), order[i + 1]);
    }
    assert_eq!(GameState::TERMINAL.next(), GameState::TERMINAL);
}

#[test]
fn new_room_is_empty_with_a_full_deck() {
    let game = PokerGame::new();
    assert_eq!(game.state(), GameState::INITIAL);
    assert_eq!(game.seat_count(), 0);
    assert_eq!(game.pot(), 0);
    assert_eq!(game.bet_amount(), 0);
    assert_eq!(game.stage(), BettingStage::NOBETS);
    assert_eq!(game.turn_num(), 0);
    assert_eq!(game.active_seat(), 0);
    assert_eq!(game.blind_seat(), 0);
    assert!(game.community_cards().is_empty());
    assert_eq!(game.deck().len(), 52);
    assert_no_card_twice(game.deck());
    assert!(game.seat(0).is_none());
    for c in Card::newDeck() {
        assert!(game.deck().contains(&c));
    }
}

#[test]
fn first_player_owns_the_room() {
    let game = seated(&["ann", "bob", "cy"]);
    assert_eq!(game.seat_count(), 3);
    for (i, p) in ["ann", "bob", "cy"].iter().enumerate() {
        let seat = game.seat(i).unwrap();
        assert_eq!(seat.uuid(), p);
        assert_eq!(seat.is_room_owner(), i == 0);
        assert!(!seat.is_playing());
        assert!(seat.hand().is_empty());
        assert_eq!(seat.bet(), Bet { bet_type: BetType::NONE, value: 0 });
        assert_eq!(seat.committed(), 0);
        assert_eq!(seat.winnings(), 0);
        assert_eq!(seat.hand_rank(), 0);
        assert_eq!(game.find_seat(&text(p)), Some(i));
    }
    assert_eq!(game.find_seat(&text("zed")), None);
    assert!(game.seat(3).is_none());
}

#[test]
fn join_twice_is_refused() {
    let mut game = seated(&["ann"]);
    assert_eq!(play(&mut game, join("ann")), Err(GameError::AlreadySeated));
    assert_eq!(game.seat_count(), 1);
}

#[test]
fn room_takes_ten_players() {
    let names: Vec<String> = (0..MAX_SIZE).map(|i| format!("player{}", i)).collect();
    let refs: Vec<&str> = names.iter().map(|s| s.as_str()).collect();
    let mut game = seated(&refs);
    assert_eq!(game.seat_count(), 10);
    assert_eq!(play(&mut game, join("late")), Err(GameError::RoomFull));
    assert_eq!(game.seat_count(), 10);
    assert_eq!(game.find_seat(&text("late")), None);
}

#[test]
fn quit_gives_up_the_seat() {
    let mut game = seated(&["ann", "bob", "cy"]);
    assert_eq!(play(&mut game, connect(ConnectionActionType::QUIT, "bob")), Ok(()));
    assert_eq!(game.seat_count(), 2);
    assert_eq!(game.seat(0).unwrap().uuid(), "ann");
    assert_eq!(game.seat(1).unwrap().uuid(), "cy");
    assert!(game.seat(0).unwrap().is_room_owner());
    assert!(!game.seat(1).unwrap().is_room_owner());
    assert_eq!(play(&mut game, connect(ConnectionActionType::QUIT, "bob")), Err(GameError::NotSeated));
}

#[test]
fn owner_quits_and_the_next_seat_owns_the_room() {
    let mut game = seated(&["ann", "bob", "cy"]);
    assert_eq!(play(&mut game, connect(ConnectionActionType::QUIT, "ann")), Ok(()));
    assert_eq!(game.seat_count(), 2);
    assert_eq!(game.seat(0).unwrap().uuid(), "bob");
    assert!(game.seat(0).unwrap().is_room_owner());
    assert!(!game.seat(1).unwrap().is_room_owner());
    assert_eq!(play(&mut game, connect(ConnectionActionType::QUIT, "bob")), Ok(()));
    assert_eq!(play(&mut game, connect(ConnectionActionType::QUIT, "cy")), Ok(()));
    assert_eq!(game.seat_count(), 0);
    assert_eq!(play(&mut game, join("dee")), Ok(()));
    assert!(game.seat(0).unwrap().is_room_owner());
}

#[test]
fn only_the_owner_starts() {
    let mut game = seated(&["ann", "bob"]);
    assert_eq!(play(&mut game, connect(ConnectionActionType::START, "bob")), Err(GameError::NotOwner));
    assert_eq!(play(&mut game, connect(ConnectionActionType::START, "eve")), Err(GameError::NotOwner));
    assert_eq!(game.state(), GameState::INITIAL);
    assert_eq!(game.turn_num(), 0);
    assert_eq!(play(&mut game, connect(ConnectionActionType::START, "ann")), Ok(()));
    assert_eq!(game.state(), GameState::FLOPBETTING);
    assert_eq!(game.turn_num(), 1);
}

#[test]
fn a_hand_needs_two_players() {
    let mut game = seated(&["ann"]);
    assert_eq!(
        play(&mut game, connect(ConnectionActionType::START, "ann")),
        Err(GameError::NotEnoughPlayers)
    );
    assert_eq!(game.state(), GameState::INITIAL);
    assert_eq!(game.deck().len(), 52);
}

#[test]
fn start_deals_two_cards_to_each_seat() {
    let before = seated(&["ann", "bob", "cy"]);
    let deck: Vec<Card> = before.deck().clone();
    let mut game = before;
    assert_eq!(play(&mut game, connect(ConnectionActionType::START, "ann")), Ok(()));
    assert_eq!(game.state(), GameState::FLOPBETTING);
    assert_eq!(game.stage(), BettingStage::NOBETS);
    assert_eq!(game.deck().len(), 46);
    assert_eq!(game.deck()[..], deck[..46]);
    for i in 0..3 {
        let seat = game.seat(i).unwrap();
        assert!(seat.is_playing());
        assert_eq!(seat.hand().len(), 2);
        assert_eq!(seat.hand()[0], deck[51 - 2 * i]);
        assert_eq!(seat.hand()[1], deck[50 - 2 * i]);
    }
    assert!(game.community_cards().is_empty());
    assert_eq!(game.active_seat(), 0);
    assert_eq!(game.blind_seat(), 0);
    assert_eq!(game.pot(), 0);
    assert_eq!(game.active_seats(), 3);
    let cards = all_cards(&game);
    assert_eq!(cards.len(), 52);
    assert_no_card_twice(&cards);
}

#[test]
fn connection_in_a_hand_is_refused() {
    let mut game = started(&["ann", "bob"]);
    assert_eq!(play(&mut game, join("cy")), Err(GameError::WrongState));
    assert_eq!(play(&mut game, connect(ConnectionActionType::START, "ann")), Err(GameError::WrongState));
    assert_eq!(play(&mut game, Action::Ranking(vec![1, 2])), Err(GameError::WrongState));
    assert_eq!(game.seat_count(), 2);
    assert_eq!(game.state(), GameState::FLOPBETTING);
}

#[test]
fn bet_before_a_hand_is_refused() {
    let mut game = seated(&["ann", "bob"]);
    assert_eq!(play(&mut game, bet("ann", BetType::CHECK, 0)), Err(GameError::WrongState));
    assert_eq!(play(&mut game, Action::Ranking(vec![1, 2])), Err(GameError::WrongState));
    assert_eq!(game.handle_check(), Err(GameError::WrongState));
    assert_eq!(game.handle_bet(5), Err(GameError::WrongState));
    assert_eq!(game.handle_raise(50), Err(GameError::WrongState));
    assert_eq!(game.handle_call(), Err(GameError::WrongState));
    assert_eq!(game.handle_blind(), Err(GameError::WrongState));
    assert_eq!(game.handle_deal(), Err(GameError::WrongState));
    assert_eq!(game.reveal_flop(), Err(GameError::WrongState));
    assert_eq!(game.reveal_turn(), Err(GameError::WrongState));
    assert_eq!(game.reveal_river(), Err(GameError::WrongState));
    assert_eq!(game.showdown(vec![1, 2]), Err(GameError::WrongState));
    assert_eq!(game.distribute_pot(), Err(GameError::WrongState));
    assert_eq!(game.bet(bet_action("ann", BetType::CHECK, 0)), Err(GameError::WrongState));
    assert_eq!(game.bet_turn(bet_action("ann", BetType::CHECK, 0)), Err(GameError::WrongState));
    assert_eq!(game.bet_river(bet_action("ann", BetType::CHECK, 0)), Err(GameError::WrongState));
    assert_eq!(game.state(), GameState::INITIAL);
    assert_eq!(game.pot(), 0);
}

#[test]
fn bet_from_another_seat_is_not_your_turn() {
    let mut game = started(&["ann", "bob", "cy"]);
    let deck_before: Vec<Card> = game.deck().clone();
    for kind in [BetType::CHECK, BetType::BET, BetType::RAISE, BetType::CALL, BetType::FOLD] {
        assert_eq!(play(&mut game, bet("bob", kind, 10)), Err(GameError::NotYourTurn));
        assert_eq!(play(&mut game, bet("cy", kind, 10)), Err(GameError::NotYourTurn));
    }
    assert_eq!(game.state(), GameState::FLOPBETTING);
    assert_eq!(game.stage(), BettingStage::NOBETS);
    assert_eq!(game.pot(), 0);
    assert_eq!(game.bet_amount(), 0);
    assert_eq!(game.active_seat(), 0);
    assert_eq!(*game.deck(), deck_before);
    for i in 0..3 {
        assert_eq!(game.seat(i).unwrap().bet(), Bet { bet_type: BetType::NONE, value: 0 });
        assert_eq!(game.seat(i).unwrap().committed(), 0);
    }
}

#[test]
fn bet_from_a_stranger_is_not_playing() {
    let mut game = started(&["ann", "bob"]);
    assert_eq!(play(&mut game, bet("ghost", BetType::CHECK, 0)), Err(GameError::NotPlaying));
    assert_eq!(game.active_seat(), 0);
}

#[test]
fn scenario_bet_raise_call() {
    let mut game = started(&["ann", "bob"]);
    assert_eq!(play(&mut game, bet("ann", BetType::BET, 10)), Ok(()));
    assert_eq!(game.pot(), 10);
    assert_eq!(game.stage(), BettingStage::BETPLACED);
    assert_eq!(game.bet_amount(), 10);
    assert_eq!(game.active_seat(), 1);
    assert_eq!(game.state(), GameState::FLOPBETTING);

    assert_eq!(play(&mut game, bet("bob", BetType::RAISE, 25)), Ok(()));
    assert_eq!(game.pot(), 35);
    assert_eq!(game.bet_amount(), 35);
    assert_eq!(game.stage(), BettingStage::RAISED);
    assert_eq!(game.active_seat(), 0);
    assert_eq!(game.state(), GameState::FLOPBETTING);

    assert_eq!(
        game.betting_stage(bet_action("ann", BetType::CALL, 0), GameState::FLOPBETTING),
        Ok(())
    );
    assert_eq!(game.pot(), 70);
    assert_eq!(game.stage(), BettingStage::CALLED);
    assert_eq!(game.state(), GameState::FLOP);
    assert_eq!(game.seat(0).unwrap().bet(), Bet { bet_type: BetType::CALL, value: 35 });
    assert_eq!(game.seat(1).unwrap().bet(), Bet { bet_type: BetType::RAISE, value: 25 });
    assert_eq!(game.seat(0).unwrap().committed(), 45);
    assert_eq!(game.seat(1).unwrap().committed(), 25);
    assert!(game.community_cards().is_empty());

    assert_eq!(game.advance(), Ok(()));
    assert_eq!(game.state(), GameState::TURNBETTING);
    assert_eq!(game.community_cards().len(), 3);
    assert_eq!(game.stage(), BettingStage::NOBETS);
    assert_eq!(game.bet_amount(), 0);
    assert_eq!(game.pot(), 70);
    assert_eq!(game.active_seat(), 0);
    assert_eq!(game.seat(0).unwrap().bet(), Bet { bet_type: BetType::NONE, value: 0 });
    assert_eq!(game.seat(1).unwrap().bet(), Bet { bet_type: BetType::NONE, value: 0 });
}

#[test]
fn scenario_bet_raise_call_through_run() {
    let mut game = started(&["ann", "bob"]);
    let deck: Vec<Card> = game.deck().clone();
    assert_eq!(game.run(bet("ann", BetType::BET, 10)), Ok(()));
    assert_eq!(game.pot(), 10);
    assert_eq!(game.stage(), BettingStage::BETPLACED);
    assert_eq!(game.run(bet("bob", BetType::RAISE, 25)), Ok(()));
    assert_eq!(game.pot(), 35);
    assert_eq!(game.bet_amount(), 35);
    assert_eq!(game.stage(), BettingStage::RAISED);
    assert_eq!(game.state(), GameState::FLOPBETTING);
    assert_eq!(game.run(bet("ann", BetType::CALL, 0)), Ok(()));
    // the round is over: the phase has moved on by one, nothing is revealed yet
    assert_eq!(game.state(), GameState::FLOP);
    assert_eq!(game.stage(), BettingStage::CALLED);
    assert_eq!(game.pot(), 70);
    assert!(game.community_cards().is_empty());
    assert_eq!(*game.deck(), deck);
    // the flop
    assert_eq!(game.advance(), Ok(()));
    assert_eq!(game.state(), GameState::TURNBETTING);
    assert_eq!(game.community_cards().len(), 3);
    assert_eq!(game.community_cards()[0], deck[47]);
    assert_eq!(game.community_cards()[1], deck[46]);
    assert_eq!(game.community_cards()[2], deck[45]);
    assert_eq!(game.deck()[..], deck[..45]);
    let cards = all_cards(&game);
    assert_eq!(cards.len(), 52);
    assert_no_card_twice(&cards);
}

#[test]
fn scenario_fold_after_bet_ends_the_hand() {
    let mut game = started(&["bob", "ann"]);
    assert_eq!(game.run(bet("bob", BetType::BET, 10)), Ok(()));
    assert_eq!(game.pot(), 10);
    assert_eq!(game.run(bet("ann", BetType::FOLD, 0)), Ok(()));
    // one seat is left: the hand is over and the pot is due, no reveal follows
    assert_eq!(game.state(), GameState::POTDISTRIBUTION);
    assert!(game.community_cards().is_empty());
    assert_eq!(game.advance(), Ok(()));
    assert_eq!(game.state(), GameState::TERMINAL);
    assert!(game.community_cards().is_empty());
    assert_eq!(game.pot(), 10);
    assert_eq!(game.seat(0).unwrap().uuid(), "bob");
    assert_eq!(game.seat(0).unwrap().winnings(), 10);
    assert_eq!(game.seat(1).unwrap().winnings(), 0);
    assert_eq!(game.seat(1).unwrap().bet().bet_type, BetType::FOLD);
    assert_eq!(game.deck().len(), 48);
}

#[test]
fn scenario_fold_leaves_the_pot_due() {
    let mut game = started(&["ann", "bob"]);
    assert_eq!(game.bet(bet_action("ann", BetType::CHECK, 0)), Ok(()));
    assert_eq!(game.bet(bet_action("bob", BetType::BET, 10)), Ok(()));
    assert_eq!(game.bet(bet_action("ann", BetType::FOLD, 0)), Ok(()));
    assert_eq!(game.state(), GameState::POTDISTRIBUTION);
    assert_eq!(game.active_seats(), 1);
    assert_eq!(game.distribute_pot(), Ok(()));
    assert_eq!(game.state(), GameState::TERMINAL);
    assert_eq!(game.seat(1).unwrap().winnings(), 10);
    assert_eq!(game.seat(0).unwrap().winnings(), 0);
}

#[test]
fn scenario_draw_from_a_deck_of_one() {
    let mut game = PokerGame::new();
    let deck: Vec<Card> = game.deck().clone();
    let drawn = game.drawNCards(51).unwrap();
    assert_eq!(drawn.len(), 51);
    assert_eq!(game.deck().len(), 1);
    assert_eq!(game.drawNCards(2), Err(GameError::DeckExhausted));
    assert_eq!(game.deck().len(), 1);
    assert_eq!(game.deck()[0], deck[0]);
    let last = game.drawNCards(1).unwrap();
    assert_eq!(last, vec![deck[0]]);
    assert!(game.deck().is_empty());
    assert_eq!(game.drawNCards(1), Err(GameError::DeckExhausted));
}

#[test]
fn draw_takes_cards_off_the_tail() {
    let mut game = PokerGame::new();
    let deck: Vec<Card> = game.deck().clone();
    let drawn = game.drawNCards(3).unwrap();
    assert_eq!(drawn, vec![deck[51], deck[50], deck[49]]);
    assert_eq!(game.deck()[..], deck[..49]);
    for c in drawn.iter() {
        assert!(!game.deck().contains(c));
    }
    assert_eq!(game.drawNCards(0), Ok(Vec::new()));
    assert_eq!(game.drawNCards(-4), Ok(Vec::new()));
    assert_eq!(game.deck().len(), 49);
    assert_eq!(game.drawNCards(50), Err(GameError::DeckExhausted));
    assert_eq!(game.deck().len(), 49);
    assert_eq!(game.drawNCards(49).unwrap().len(), 49);
}

#[test]
fn three_checks_end_the_round_once() {
    let mut game = started(&["ann", "bob", "cy"]);
    assert_eq!(game.bet(bet_action("ann", BetType::CHECK, 0)), Ok(()));
    assert_eq!(game.state(), GameState::FLOPBETTING);
    assert_eq!(game.active_seat(), 1);
    assert!(!game.check_betting_finished());
    assert_eq!(game.bet(bet_action("bob", BetType::CHECK, 0)), Ok(()));
    assert_eq!(game.state(), GameState::FLOPBETTING);
    assert_eq!(game.active_seat(), 2);
    assert!(!game.check_betting_finished());
    assert_eq!(game.bet(bet_action("cy", BetType::CHECK, 0)), Ok(()));
    assert_eq!(game.state(), GameState::FLOP);
    assert!(game.check_betting_finished());
    assert_eq!(game.stage(), BettingStage::NOBETS);
    assert_eq!(game.pot(), 0);
    // the round is over: no further bet is taken in it
    assert_eq!(game.bet(bet_action("ann", BetType::CHECK, 0)), Err(GameError::WrongState));
    assert_eq!(game.state(), GameState::FLOP);
}

#[test]
fn checks_through_run_end_the_round_once() {
    let mut game = started(&["ann", "bob", "cy"]);
    let deck: Vec<Card> = game.deck().clone();
    assert_eq!(game.run(bet("ann", BetType::CHECK, 0)), Ok(()));
    assert_eq!(game.state(), GameState::FLOPBETTING);
    assert_eq!(game.run(bet("bob", BetType::CHECK, 0)), Ok(()));
    assert_eq!(game.state(), GameState::FLOPBETTING);
    assert!(game.community_cards().is_empty());
    assert_eq!(game.run(bet("cy", BetType::CHECK, 0)), Ok(()));
    assert_eq!(game.state(), GameState::FLOP);
    assert_eq!(game.pot(), 0);
    assert!(game.community_cards().is_empty());
    assert_eq!(*game.deck(), deck);
}

#[test]
fn last_check_of_two_leaves_the_room_in_the_flop_phase() {
    let mut game = started(&["ann", "bob"]);
    assert_eq!(game.run(bet("ann", BetType::CHECK, 0)), Ok(()));
    assert_eq!(game.active_seat(), 1);
    assert_eq!(game.state(), GameState::FLOPBETTING);
    assert_eq!(game.run(bet("bob", BetType::CHECK, 0)), Ok(()));
    assert_eq!(game.state(), GameState::FLOP);
    assert_eq!(game.pot(), 0);
    assert_eq!(game.stage(), BettingStage::NOBETS);
    assert!(game.community_cards().is_empty());
    assert_eq!(game.deck().len(), 48);
}

#[test]
fn later_rounds_end_in_the_phase_that_follows() {
    let mut game = started(&["ann", "bob"]);
    assert_eq!(play(&mut game, bet("ann", BetType::CHECK, 0)), Ok(()));
    assert_eq!(play(&mut game, bet("bob", BetType::CHECK, 0)), Ok(()));
    assert_eq!(game.state(), GameState::TURNBETTING);
    assert_eq!(game.run(bet("bob", BetType::CHECK, 0)), Err(GameError::NotYourTurn));
    assert_eq!(game.state(), GameState::TURNBETTING);
    assert_eq!(game.run(bet("ann", BetType::BET, 10)), Ok(()));
    assert_eq!(game.run(bet("bob", BetType::RAISE, 21)), Ok(()));
    assert_eq!(game.run(bet("ann", BetType::CALL, 0)), Ok(()));
    assert_eq!(game.state(), GameState::TURN);
    assert_eq!(game.pot(), 62);
    assert_eq!(game.community_cards().len(), 3);
    assert_eq!(game.advance(), Ok(()));
    assert_eq!(game.state(), GameState::RIVERBETTING);
    assert_eq!(game.community_cards().len(), 4);
    assert_eq!(game.run(bet("ann", BetType::CHECK, 0)), Ok(()));
    assert_eq!(game.run(bet("bob", BetType::CHECK, 0)), Ok(()));
    assert_eq!(game.state(), GameState::RIVER);
    assert_eq!(game.community_cards().len(), 4);
    assert_eq!(game.deck().len(), 44);
}

#[test]
fn run_in_a_reveal_phase_reveals() {
    let mut game = started(&["ann", "bob"]);
    assert_eq!(game.run(bet("ann", BetType::CHECK, 0)), Ok(()));
    assert_eq!(game.run(bet("bob", BetType::CHECK, 0)), Ok(()));
    assert_eq!(game.state(), GameState::FLOP);
    // the phase takes no action: whatever comes is left aside, and the flop is revealed
    assert_eq!(game.run(bet("bob", BetType::BET, 10)), Ok(()));
    assert_eq!(game.state(), GameState::TURNBETTING);
    assert_eq!(game.community_cards().len(), 3);
    assert_eq!(game.pot(), 0);
    assert_eq!(game.stage(), BettingStage::NOBETS);
    assert_eq!(game.active_seat(), 0);
}

#[test]
fn run_pays_the_pot_that_is_due() {
    let mut game = started(&["ann", "bob"]);
    assert_eq!(game.run(bet("ann", BetType::BET, 10)), Ok(()));
    assert_eq!(game.run(bet("bob", BetType::FOLD, 0)), Ok(()));
    assert_eq!(game.state(), GameState::POTDISTRIBUTION);
    assert_eq!(game.seat(0).unwrap().winnings(), 0);
    assert_eq!(game.run(join("cy")), Ok(()));
    assert_eq!(game.state(), GameState::TERMINAL);
    assert_eq!(game.seat(0).unwrap().winnings(), 10);
    assert_eq!(game.seat_count(), 2);
}

#[test]
fn run_with_a_short_deck_in_a_reveal_phase_calls_the_hand_off() {
    let mut game = started(&["ann", "bob"]);
    assert_eq!(game.run(bet("ann", BetType::CHECK, 0)), Ok(()));
    assert_eq!(game.run(bet("bob", BetType::CHECK, 0)), Ok(()));
    assert_eq!(game.drawNCards(46).unwrap().len(), 46);
    assert_eq!(game.run(bet("ann", BetType::CHECK, 0)), Err(GameError::DeckExhausted));
    assert_eq!(game.state(), GameState::INITIAL);
    assert_eq!(game.deck().len(), 52);
    assert_eq!(game.seat_count(), 2);
}

#[test]
fn check_after_a_bet_is_refused() {
    let mut game = started(&["ann", "bob"]);
    assert_eq!(play(&mut game, bet("ann", BetType::BET, 10)), Ok(()));
    assert_eq!(play(&mut game, bet("bob", BetType::CHECK, 0)), Err(GameError::BetAlreadyPlaced));
    assert_eq!(play(&mut game, bet("bob", BetType::BET, 10)), Err(GameError::BetAlreadyPlaced));
    assert_eq!(game.pot(), 10);
    assert_eq!(game.active_seat(), 1);
    assert_eq!(game.stage(), BettingStage::BETPLACED);
}

#[test]
fn raise_rules() {
    let mut game = started(&["ann", "bob"]);
    assert_eq!(play(&mut game, bet("ann", BetType::RAISE, 100)), Err(GameError::NoBetToRaise));
    assert_eq!(game.stage(), BettingStage::NOBETS);
    assert_eq!(game.pot(), 0);
    assert_eq!(play(&mut game, bet("ann", BetType::BET, 10)), Ok(()));
    assert_eq!(play(&mut game, bet("bob", BetType::RAISE, 20)), Err(GameError::RaiseTooSmall));
    assert_eq!(play(&mut game, bet("bob", BetType::RAISE, 5)), Err(GameError::RaiseTooSmall));
    assert_eq!(play(&mut game, bet("bob", BetType::RAISE, -1)), Err(GameError::RaiseTooSmall));
    assert_eq!(game.pot(), 10);
    assert_eq!(game.bet_amount(), 10);
    assert_eq!(game.stage(), BettingStage::BETPLACED);
    assert_eq!(game.active_seat(), 1);
    assert_eq!(play(&mut game, bet("bob", BetType::RAISE, 21)), Ok(()));
    assert_eq!(game.pot(), 31);
    assert_eq!(game.bet_amount(), 31);
    assert_eq!(game.stage(), BettingStage::RAISED);
    assert_eq!(play(&mut game, bet("ann", BetType::RAISE, 1000)), Err(GameError::NoBetToRaise));
    assert_eq!(game.pot(), 31);
    assert_eq!(game.bet_amount(), 31);
    assert_eq!(game.stage(), BettingStage::RAISED);
}

#[test]
fn call_rules() {
    let mut game = started(&["ann", "bob"]);
    assert_eq!(play(&mut game, bet("ann", BetType::CALL, 0)), Err(GameError::NothingToCall));
    assert_eq!(play(&mut game, bet("ann", BetType::BET, 10)), Ok(()));
    assert_eq!(play(&mut game, bet("bob", BetType::CALL, 0)), Err(GameError::NothingToCall));
    assert_eq!(game.pot(), 10);
    assert_eq!(game.stage(), BettingStage::BETPLACED);
}

#[test]
fn amounts_out_of_range_are_refused() {
    let mut game = started(&["ann", "bob"]);
    assert_eq!(play(&mut game, bet("ann", BetType::BET, -5)), Err(GameError::InvalidAmount));
    assert_eq!(game.pot(), 0);
    assert_eq!(game.stage(), BettingStage::NOBETS);
    assert_eq!(play(&mut game, bet("ann", BetType::BET, 1_000_000_000)), Ok(()));
    assert_eq!(
        play(&mut game, bet("bob", BetType::RAISE, 2_000_000_001)),
        Err(GameError::InvalidAmount)
    );
    assert_eq!(game.pot(), 1_000_000_000);
    assert_eq!(game.bet_amount(), 1_000_000_000);
    assert_eq!(game.stage(), BettingStage::BETPLACED);
}

#[test]
fn largest_bets_fit_the_pot() {
    let mut game = started(&["ann", "bob"]);
    assert_eq!(play(&mut game, bet("ann", BetType::BET, 0)), Ok(()));
    assert_eq!(play(&mut game, bet("bob", BetType::RAISE, i32::MAX)), Ok(()));
    assert_eq!(play(&mut game, bet("ann", BetType::CALL, 0)), Ok(()));
    assert_eq!(game.pot(), 2 * (i32::MAX as i64));
    assert_eq!(game.state(), GameState::TURNBETTING);
    assert_eq!(play(&mut game, bet("ann", BetType::BET, 0)), Ok(()));
    assert_eq!(play(&mut game, bet("bob", BetType::RAISE, i32::MAX)), Ok(()));
    assert_eq!(play(&mut game, bet("ann", BetType::CALL, 0)), Ok(()));
    assert_eq!(game.pot(), 4 * (i32::MAX as i64));
    assert_eq!(game.seat(0).unwrap().committed(), 2 * (i32::MAX as i64));
    assert_eq!(game.seat(1).unwrap().committed(), 2 * (i32::MAX as i64));
}

#[test]
fn all_in_and_none_are_not_played() {
    let mut game = started(&["ann", "bob"]);
    assert_eq!(play(&mut game, bet("ann", BetType::ALLIN, 10)), Err(GameError::Unsupported));
    assert_eq!(play(&mut game, bet("ann", BetType::NONE, 0)), Err(GameError::Unsupported));
    assert_eq!(game.active_seat(), 0);
    assert_eq!(game.pot(), 0);
}

#[test]
fn wrong_phase_for_a_bet() {
    let mut game = started(&["ann", "bob"]);
    assert_eq!(
        game.betting_stage(bet_action("ann", BetType::CHECK, 0), GameState::TURNBETTING),
        Err(GameError::WrongState)
    );
    assert_eq!(
        game.betting_stage(bet_action("ann", BetType::CHECK, 0), GameState::SHOWDOWN),
        Err(GameError::WrongState)
    );
    assert_eq!(game.bet_turn(bet_action("ann", BetType::CHECK, 0)), Err(GameError::WrongState));
    assert_eq!(game.bet_river(bet_action("ann", BetType::CHECK, 0)), Err(GameError::WrongState));
    assert_eq!(game.active_seat(), 0);
    assert_eq!(game.seat(0).unwrap().bet().bet_type, BetType::NONE);
}

#[test]
fn pot_is_what_the_seats_put_in() {
    let mut game = started(&["ann", "bob", "cy"]);
    let steps = [
        bet("ann", BetType::BET, 10),
        bet("bob", BetType::RAISE, 21),
        bet("cy", BetType::CALL, 0),
        bet("ann", BetType::FOLD, 0),
        bet("bob", BetType::BET, 4),
        bet("cy", BetType::RAISE, 9),
        bet("bob", BetType::CALL, 0),
    ];
    let mut last = 0;
    for step in steps {
        assert_eq!(play(&mut game, step), Ok(()));
        let sum: i64 = (0..3).map(|i| game.seat(i).unwrap().committed()).sum();
        assert_eq!(game.pot(), sum);
        assert!(game.pot() >= last);
        last = game.pot();
    }
    assert_eq!(game.pot(), 10 + 21 + 31 + 4 + 9 + 13);
    assert_eq!(game.seat(0).unwrap().committed(), 10);
    assert_eq!(game.seat(1).unwrap().committed(), 21 + 4 + 13);
    assert_eq!(game.seat(2).unwrap().committed(), 31 + 9);
    assert_eq!(game.state(), GameState::RIVERBETTING);
    assert_eq!(game.community_cards().len(), 4);
}

#[test]
fn folded_seat_is_passed_over() {
    let mut game = started(&["ann", "bob", "cy"]);
    assert_eq!(play(&mut game, bet("ann", BetType::FOLD, 0)), Ok(()));
    assert_eq!(game.active_seat(), 1);
    assert_eq!(game.active_seats(), 2);
    assert_eq!(play(&mut game, bet("ann", BetType::CHECK, 0)), Err(GameError::NotYourTurn));
    assert_eq!(play(&mut game, bet("bob", BetType::CHECK, 0)), Ok(()));
    assert_eq!(game.active_seat(), 2);
    assert_eq!(play(&mut game, bet("cy", BetType::CHECK, 0)), Ok(()));
    // second round: the fold stands, the turn starts behind the folded blind
    assert_eq!(game.state(), GameState::TURNBETTING);
    assert_eq!(game.seat(0).unwrap().bet().bet_type, BetType::FOLD);
    assert_eq!(game.seat(1).unwrap().bet().bet_type, BetType::NONE);
    assert_eq!(game.active_seat(), 1);
    assert_eq!(play(&mut game, bet("bob", BetType::CHECK, 0)), Ok(()));
    assert_eq!(play(&mut game, bet("cy", BetType::CHECK, 0)), Ok(()));
    assert_eq!(game.state(), GameState::RIVERBETTING);
    assert_eq!(game.active_seat(), 1);
}

fn to_showdown(players: &[&str]) -> PokerGame {
    let mut game = started(players);
    for _round in 0..3 {
        for p in players {
            assert_eq!(play(&mut game, bet(p, BetType::CHECK, 0)), Ok(()));
        }
    }
    assert_eq!(game.state(), GameState::SHOWDOWN);
    game
}

#[test]
fn community_cards_come_in_steps() {
    let players = ["ann", "bob"];
    let mut game = started(&players);
    let deck: Vec<Card> = game.deck().clone();
    let mut seen = vec![game.community_cards().len()];
    for _round in 0..3 {
        for p in players {
            assert_eq!(play(&mut game, bet(p, BetType::CHECK, 0)), Ok(()));
            seen.push(game.community_cards().len());
        }
    }
    assert_eq!(seen, vec![0, 0, 3, 3, 4, 4, 5]);
    assert_eq!(game.state(), GameState::SHOWDOWN);
    let expected = vec![deck[47], deck[46], deck[45], deck[44], deck[43]];
    assert_eq!(*game.community_cards(), expected);
    assert_eq!(game.deck().len(), 43);
    let cards = all_cards(&game);
    assert_eq!(cards.len(), 52);
    assert_no_card_twice(&cards);
}

#[test]
fn phases_by_hand() {
    let mut game = seated(&["ann", "bob"]);
    let start = ConnectionAction { action_type: ConnectionActionType::START, uuid: text("ann") };
    assert_eq!(game.handle_initial(start), Ok(()));
    assert_eq!(game.state(), GameState::BLIND);
    assert_eq!(game.handle_deal(), Err(GameError::WrongState));
    assert_eq!(game.handle_blind(), Ok(()));
    assert_eq!(game.state(), GameState::DEAL);
    assert_eq!(game.handle_deal(), Ok(()));
    assert_eq!(game.state(), GameState::FLOPBETTING);
    assert_eq!(game.bet(bet_action("ann", BetType::CHECK, 0)), Ok(()));
    assert_eq!(game.bet(bet_action("bob", BetType::CHECK, 0)), Ok(()));
    assert_eq!(game.state(), GameState::FLOP);
    assert_eq!(game.reveal_turn(), Err(GameError::WrongState));
    assert_eq!(game.reveal_flop(), Ok(()));
    assert_eq!(game.state(), GameState::TURNBETTING);
    assert_eq!(game.bet_turn(bet_action("ann", BetType::CHECK, 0)), Ok(()));
    assert_eq!(game.bet_turn(bet_action("bob", BetType::CHECK, 0)), Ok(()));
    assert_eq!(game.state(), GameState::TURN);
    assert_eq!(game.reveal_river(), Err(GameError::WrongState));
    assert_eq!(game.reveal_turn(), Ok(()));
    assert_eq!(game.state(), GameState::RIVERBETTING);
    assert_eq!(game.bet_river(bet_action("ann", BetType::CHECK, 0)), Ok(()));
    assert_eq!(game.bet_river(bet_action("bob", BetType::CHECK, 0)), Ok(()));
    assert_eq!(game.state(), GameState::RIVER);
    assert_eq!(game.reveal_flop(), Err(GameError::WrongState));
    assert_eq!(game.reveal_river(), Ok(()));
    assert_eq!(game.state(), GameState::SHOWDOWN);
    assert_eq!(game.community_cards().len(), 5);
    assert_eq!(game.showdown(vec![3, 8]), Ok(()));
    assert_eq!(game.state(), GameState::POTDISTRIBUTION);
    assert_eq!(game.seat(0).unwrap().hand_rank(), 3);
    assert_eq!(game.seat(1).unwrap().hand_rank(), 8);
    assert_eq!(game.distribute_pot(), Ok(()));
    assert_eq!(game.state(), GameState::TERMINAL);
}

#[test]
fn showdown_wants_one_strength_per_seat() {
    let mut game = to_showdown(&["ann", "bob"]);
    assert_eq!(play(&mut game, Action::Ranking(vec![1])), Err(GameError::BadRanking));
    assert_eq!(play(&mut game, Action::Ranking(vec![1, 2, 3])), Err(GameError::BadRanking));
    assert_eq!(play(&mut game, bet("ann", BetType::CHECK, 0)), Err(GameError::WrongState));
    assert_eq!(play(&mut game, join("cy")), Err(GameError::WrongState));
    assert_eq!(game.state(), GameState::SHOWDOWN);
    assert_eq!(play(&mut game, Action::Ranking(vec![1, 2])), Ok(()));
    assert_eq!(game.state(), GameState::TERMINAL);
}

#[test]
fn strongest_hand_takes_the_pot() {
    let mut game = started(&["ann", "bob"]);
    assert_eq!(play(&mut game, bet("ann", BetType::BET, 10)), Ok(()));
    assert_eq!(play(&mut game, bet("bob", BetType::RAISE, 21)), Ok(()));
    assert_eq!(play(&mut game, bet("ann", BetType::CALL, 0)), Ok(()));
    for _round in 0..2 {
        assert_eq!(play(&mut game, bet("ann", BetType::CHECK, 0)), Ok(()));
        assert_eq!(play(&mut game, bet("bob", BetType::CHECK, 0)), Ok(()));
    }
    assert_eq!(game.state(), GameState::SHOWDOWN);
    assert_eq!(game.pot(), 62);
    assert_eq!(play(&mut game, Action::Ranking(vec![40, 39])), Ok(()));
    assert_eq!(game.state(), GameState::TERMINAL);
    assert_eq!(game.seat(0).unwrap().winnings(), 62);
    assert_eq!(game.seat(1).unwrap().winnings(), 0);
    assert_eq!(game.pot(), 62);
}

#[test]
fn equal_hands_split_the_pot() {
    let mut game = started(&["ann", "bob", "cy"]);
    assert_eq!(play(&mut game, bet("ann", BetType::BET, 10)), Ok(()));
    assert_eq!(play(&mut game, bet("bob", BetType::RAISE, 21)), Ok(()));
    assert_eq!(play(&mut game, bet("cy", BetType::CALL, 0)), Ok(()));
    assert_eq!(game.state(), GameState::FLOPBETTING);
    assert_eq!(game.active_seat(), 0);
    assert_eq!(play(&mut game, bet("ann", BetType::CALL, 0)), Err(GameError::NothingToCall));
    assert_eq!(play(&mut game, bet("ann", BetType::FOLD, 0)), Ok(()));
    for _round in 0..2 {
        assert_eq!(play(&mut game, bet("bob", BetType::CHECK, 0)), Ok(()));
        assert_eq!(play(&mut game, bet("cy", BetType::CHECK, 0)), Ok(()));
    }
    assert_eq!(game.state(), GameState::SHOWDOWN);
    assert_eq!(game.pot(), 62);
    // the folded seat's strength does not count
    assert_eq!(play(&mut game, Action::Ranking(vec![99, 7, 7])), Ok(()));
    assert_eq!(game.state(), GameState::TERMINAL);
    assert_eq!(game.seat(0).unwrap().winnings(), 0);
    assert_eq!(game.seat(1).unwrap().winnings(), 31);
    assert_eq!(game.seat(2).unwrap().winnings(), 31);
    let paid: i64 = (0..3).map(|i| game.seat(i).unwrap().winnings()).sum();
    assert_eq!(paid, game.pot());
}

#[test]
fn after_the_hand_nothing_happens() {
    let mut game = to_showdown(&["ann", "bob"]);
    assert_eq!(play(&mut game, Action::Ranking(vec![1, 2])), Ok(()));
    assert_eq!(game.state(), GameState::TERMINAL);
    assert_eq!(play(&mut game, join("cy")), Ok(()));
    assert_eq!(play(&mut game, bet("ann", BetType::BET, 10)), Ok(()));
    assert_eq!(play(&mut game, Action::Ranking(vec![5, 5])), Ok(()));
    assert_eq!(game.state(), GameState::TERMINAL);
    assert_eq!(game.seat_count(), 2);
    assert_eq!(game.pot(), 0);
    assert_eq!(game.advance(), Ok(()));
    assert_eq!(game.state(), GameState::TERMINAL);
}

#[test]
fn short_deck_calls_the_hand_off() {
    let mut game = seated(&["ann", "bob", "cy"]);
    assert_eq!(game.drawNCards(47).unwrap().len(), 47);
    assert_eq!(game.deck().len(), 5);
    assert_eq!(
        play(&mut game, connect(ConnectionActionType::START, "ann")),
        Err(GameError::DeckExhausted)
    );
    // the room lives on, ready for a deal
    assert_eq!(game.state(), GameState::INITIAL);
    assert_eq!(game.seat_count(), 3);
    assert_eq!(game.deck().len(), 52);
    assert_no_card_twice(game.deck());
    assert_eq!(game.pot(), 0);
    assert_eq!(game.turn_num(), 1);
    assert!(game.community_cards().is_empty());
    for i in 0..3 {
        let seat = game.seat(i).unwrap();
        assert!(seat.hand().is_empty());
        assert!(!seat.is_playing());
        assert_eq!(seat.is_room_owner(), i == 0);
    }
    assert_eq!(play(&mut game, connect(ConnectionActionType::START, "ann")), Ok(()));
    assert_eq!(game.state(), GameState::FLOPBETTING);
    assert_eq!(game.turn_num(), 2);
    assert_eq!(game.deck().len(), 46);
}

#[test]
fn short_deck_at_the_flop_calls_the_hand_off() {
    let mut game = started(&["ann", "bob"]);
    assert_eq!(game.drawNCards(46).unwrap().len(), 46);
    assert_eq!(play(&mut game, bet("ann", BetType::BET, 10)), Ok(()));
    assert_eq!(play(&mut game, bet("bob", BetType::RAISE, 21)), Ok(()));
    assert_eq!(play(&mut game, bet("ann", BetType::CALL, 0)), Err(GameError::DeckExhausted));
    assert_eq!(game.state(), GameState::INITIAL);
    assert_eq!(game.pot(), 0);
    assert_eq!(game.bet_amount(), 0);
    assert_eq!(game.stage(), BettingStage::NOBETS);
    assert_eq!(game.deck().len(), 52);
    assert_eq!(game.seat_count(), 2);
    assert_eq!(game.seat(0).unwrap().committed(), 0);
    assert_eq!(game.seat(0).unwrap().bet(), Bet { bet_type: BetType::NONE, value: 0 });
}

#[test]
fn deal_fails_without_change_when_the_deck_is_short() {
    let mut game = seated(&["ann", "bob"]);
    let start = ConnectionAction { action_type: ConnectionActionType::START, uuid: text("ann") };
    assert_eq!(game.handle_initial(start), Ok(()));
    assert_eq!(game.handle_blind(), Ok(()));
    assert_eq!(game.drawNCards(49).unwrap().len(), 49);
    assert_eq!(game.handle_deal(), Err(GameError::DeckExhausted));
    assert_eq!(game.state(), GameState::DEAL);
    assert_eq!(game.deck().len(), 3);
    assert!(game.seat(0).unwrap().hand().is_empty());
    assert!(game.seat(1).unwrap().hand().is_empty());
}

#[test]
fn error_texts() {
    assert_eq!(GameError::NotYourTurn.message(), "Not your turn");
    assert_eq!(GameError::AlreadyFolded.message(), "User already folded. Invalid move");
    assert_eq!(GameError::NotPlaying.message(), "Game is in progress, user is not playing");
    assert_eq!(GameError::RaiseTooSmall.message(), "Raise amount too small");
    assert_eq!(GameError::NoBetToRaise.message(), "Cannot raise as bet has not been placed yet");
    assert_eq!(GameError::NothingToCall.message(), "Cannot call as bet has not been raised");
    assert_eq!(GameError::DeckExhausted.message(), "The deck is exhausted");
}

#[test]
fn ranking_through_run_leaves_the_pot_due() {
    let mut game = to_showdown(&["ann", "bob"]);
    assert_eq!(game.run(Action::Ranking(vec![4, 9])), Ok(()));
    assert_eq!(game.state(), GameState::POTDISTRIBUTION);
    assert_eq!(game.seat(1).unwrap().hand_rank(), 9);
    assert_eq!(game.advance(), Ok(()));
    assert_eq!(game.state(), GameState::TERMINAL);
}

#[test]
fn step_takes_the_action_and_what_follows() {
    let mut game = started(&["ann", "bob"]);
    assert_eq!(game.step(bet("ann", BetType::CHECK, 0)), (Ok(()), false));
    assert_eq!(game.state(), GameState::FLOPBETTING);
    assert_eq!(game.step(bet("ann", BetType::CHECK, 0)), (Err(GameError::NotYourTurn), false));
    assert_eq!(game.step(bet("bob", BetType::CHECK, 0)), (Ok(()), false));
    assert_eq!(game.state(), GameState::TURNBETTING);
    assert_eq!(game.community_cards().len(), 3);
    assert_eq!(game.step(bet("ann", BetType::CHECK, 0)), (Ok(()), false));
    assert_eq!(game.step(bet("bob", BetType::CHECK, 0)), (Ok(()), false));
    assert_eq!(game.state(), GameState::RIVERBETTING);
    assert_eq!(game.step(bet("ann", BetType::CHECK, 0)), (Ok(()), false));
    // the last round is over: the river is revealed, and the room asks for the ranking
    assert_eq!(game.step(bet("bob", BetType::CHECK, 0)), (Ok(()), true));
    assert_eq!(game.state(), GameState::SHOWDOWN);
    assert_eq!(game.community_cards().len(), 5);
    assert_eq!(game.step(Action::Ranking(vec![1])), (Err(GameError::BadRanking), false));
    assert_eq!(game.step(Action::Ranking(vec![3, 2])), (Ok(()), false));
    assert_eq!(game.state(), GameState::TERMINAL);
    assert_eq!(game.step(bet("ann", BetType::CHECK, 0)), (Ok(()), false));
}

#[test]
fn step_on_a_fold_pays_the_pot() {
    let mut game = started(&["ann", "bob"]);
    assert_eq!(game.step(bet("ann", BetType::BET, 10)), (Ok(()), false));
    assert_eq!(game.step(bet("bob", BetType::FOLD, 0)), (Ok(()), false));
    assert_eq!(game.state(), GameState::TERMINAL);
    assert_eq!(game.seat(0).unwrap().winnings(), 10);
    assert!(game.community_cards().is_empty());
}

#[test]
fn step_with_a_short_deck_calls_the_hand_off() {
    let mut game = started(&["ann", "bob"]);
    assert_eq!(game.drawNCards(46).unwrap().len(), 46);
    assert_eq!(game.step(bet("ann", BetType::CHECK, 0)), (Ok(()), false));
    assert_eq!(game.step(bet("bob", BetType::CHECK, 0)), (Err(GameError::DeckExhausted), false));
    assert_eq!(game.state(), GameState::INITIAL);
    assert_eq!(game.deck().len(), 52);
}

#[test]
fn leaving_at_turn_folds_and_passes_the_turn() {
    let mut game = started(&["ann", "bob", "cy"]);
    assert_eq!(game.run(connect(ConnectionActionType::QUIT, "ann")), Ok(()));
    assert_eq!(game.state(), GameState::FLOPBETTING);
    assert_eq!(game.seat_count(), 3);
    assert_eq!(game.seat(0).unwrap().bet(), Bet { bet_type: BetType::FOLD, value: 0 });
    assert_eq!(game.active_seats(), 2);
    assert_eq!(game.active_seat(), 1);
    assert_eq!(game.run(bet("bob", BetType::CHECK, 0)), Ok(()));
    assert_eq!(game.run(bet("cy", BetType::CHECK, 0)), Ok(()));
    assert_eq!(game.state(), GameState::FLOP);
}

#[test]
fn leaving_out_of_turn_folds_and_keeps_the_turn() {
    let mut game = started(&["ann", "bob", "cy"]);
    assert_eq!(game.run(bet("ann", BetType::BET, 10)), Ok(()));
    assert_eq!(game.active_seat(), 1);
    assert_eq!(game.run(connect(ConnectionActionType::QUIT, "cy")), Ok(()));
    assert_eq!(game.state(), GameState::FLOPBETTING);
    assert_eq!(game.active_seat(), 1);
    assert_eq!(game.active_seats(), 2);
    assert_eq!(game.pot(), 10);
    assert_eq!(game.seat(2).unwrap().bet().bet_type, BetType::FOLD);
    // the room does not wait for the seat that left
    assert_eq!(game.run(bet("cy", BetType::CHECK, 0)), Err(GameError::NotYourTurn));
    assert_eq!(game.run(bet("bob", BetType::RAISE, 21)), Ok(()));
    assert_eq!(game.active_seat(), 0);
    assert_eq!(game.run(bet("ann", BetType::CALL, 0)), Ok(()));
    assert_eq!(game.state(), GameState::FLOP);
    assert_eq!(game.pot(), 62);
}

#[test]
fn leaving_can_end_the_hand() {
    let mut game = started(&["ann", "bob"]);
    assert_eq!(game.run(bet("ann", BetType::BET, 10)), Ok(()));
    assert_eq!(game.step(connect(ConnectionActionType::QUIT, "ann")), (Ok(()), false));
    assert_eq!(game.state(), GameState::TERMINAL);
    assert_eq!(game.seat(0).unwrap().winnings(), 0);
    assert_eq!(game.seat(1).unwrap().winnings(), 10);
    assert_eq!(game.seat(0).unwrap().committed(), 10);
}

#[test]
fn leaving_can_end_the_round() {
    let mut game = started(&["ann", "bob", "cy"]);
    assert_eq!(game.run(bet("ann", BetType::CHECK, 0)), Ok(()));
    assert_eq!(game.run(bet("bob", BetType::CHECK, 0)), Ok(()));
    assert_eq!(game.active_seat(), 2);
    assert_eq!(game.run(connect(ConnectionActionType::QUIT, "cy")), Ok(()));
    assert_eq!(game.state(), GameState::FLOP);
    assert_eq!(game.active_seats(), 2);
}

#[test]
fn leaving_twice_and_leaving_unseated() {
    let mut game = started(&["ann", "bob", "cy"]);
    assert_eq!(game.leave_hand(text("cy")), Ok(()));
    assert_eq!(game.active_seats(), 2);
    assert_eq!(game.leave_hand(text("cy")), Ok(()));
    assert_eq!(game.active_seats(), 2);
    assert_eq!(game.active_seat(), 0);
    assert_eq!(game.leave_hand(text("zed")), Err(GameError::NotSeated));
    assert_eq!(game.run(connect(ConnectionActionType::QUIT, "zed")), Err(GameError::NotSeated));
    assert_eq!(game.state(), GameState::FLOPBETTING);
    let mut idle = seated(&["ann", "bob"]);
    assert_eq!(idle.leave_hand(text("ann")), Err(GameError::WrongState));
    assert_eq!(idle.seat_count(), 2);
    let mut late = to_showdown(&["ann", "bob"]);
    assert_eq!(late.run(connect(ConnectionActionType::QUIT, "ann")), Err(GameError::WrongState));
}
