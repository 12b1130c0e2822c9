//! The poker hand played in one room: phases, seats, turn order and the
//! betting rounds.
use vstd::prelude::*;
use crate::cards::{full_deck, is_permutation, lemma_shuffled_deck, Card};
use crate::lookup::{lemma_position_absent, lemma_position_found};
use crate::poker_model::{
    active_flag, count_active, count_playing, count_winners, dealt_seats, drawn,
    first_active_from, first_active_in, held_cards, lemma_acted, lemma_bet_step, lemma_blinds_set,
    lemma_hands_dealt, lemma_held_gain, lemma_folded_at, lemma_joined, lemma_left_hand, lemma_paid, lemma_payout, lemma_quitted,
    lemma_ranked, lemma_recorded, lemma_revealed, lemma_round_opened, lemma_started,
    lemma_sum_prefix, lemma_sum_push, lemma_turn_passed, lemma_voided, lemma_without_top,
    playing_flag, pot_bound, takes_input, top_rank, winner_flag, winners_before, GameView,
    SeatView,
};

verus! {

/// The most seats a room holds.
pub const MAX_SIZE: usize = 10;

/// What a seat did when it last acted in the current betting round.
#[allow(non_camel_case_types)]
#[derive(PartialEq, Eq, Structural, Debug, Clone, Copy)]
pub enum BetType {
    NONE,
    CHECK,
    BET,
    CALL,
    RAISE,
    FOLD,
    ALLIN,
}

/// A bet: what was done, and for how much.
#[derive(PartialEq, Eq, Structural, Debug, Clone, Copy)]
pub struct Bet {
    pub bet_type: BetType,
    pub value: i32,
}

/// How far the betting of the current round has come. `NOBETS` allows a
/// check or a bet, `BETPLACED` a raise, `RAISED` a call.
#[derive(PartialEq, Eq, Structural, Debug, Clone, Copy)]
pub enum BettingStage {
    NOBETS,
    BETPLACED,
    RAISED,
    CALLED,
    FINISHED,
}

/// The phases of a hand, in order.
#[derive(PartialEq, Eq, Structural, Debug, Clone, Copy)]
pub enum GameState {
    INITIAL,
    BLIND,
    DEAL,
    FLOPBETTING,
    FLOP,
    TURNBETTING,
    TURN,
    RIVERBETTING,
    RIVER,
    SHOWDOWN,
    POTDISTRIBUTION,
    TERMINAL,
}

impl GameState {
    /// The place of the phase in the order of a hand, from 0.
    pub open spec fn ordinal(self) -> int {
        match self {
            GameState::INITIAL => 0,
            GameState::BLIND => 1,
            GameState::DEAL => 2,
            GameState::FLOPBETTING => 3,
            GameState::FLOP => 4,
            GameState::TURNBETTING => 5,
            GameState::TURN => 6,
            GameState::RIVERBETTING => 7,
            GameState::RIVER => 8,
            GameState::SHOWDOWN => 9,
            GameState::POTDISTRIBUTION => 10,
            GameState::TERMINAL => 11,
        }
    }

    /// The phase that follows; the last phase follows itself.
    pub open spec fn successor(self) -> GameState {
        match self {
            GameState::INITIAL => GameState::BLIND,
            GameState::BLIND => GameState::DEAL,
            GameState::DEAL => GameState::FLOPBETTING,
            GameState::FLOPBETTING => GameState::FLOP,
            GameState::FLOP => GameState::TURNBETTING,
            GameState::TURNBETTING => GameState::TURN,
            GameState::TURN => GameState::RIVERBETTING,
            GameState::RIVERBETTING => GameState::RIVER,
            GameState::RIVER => GameState::SHOWDOWN,
            GameState::SHOWDOWN => GameState::POTDISTRIBUTION,
            GameState::POTDISTRIBUTION => GameState::TERMINAL,
            GameState::TERMINAL => GameState::TERMINAL,
        }
    }

    /// One of the three phases that take bets.
    pub open spec fn is_betting(self) -> bool {
        self == GameState::FLOPBETTING || self == GameState::TURNBETTING || self
            == GameState::RIVERBETTING
    }

    pub fn next(self) -> (following: GameState)
        ensures
            following == self.successor(),
            self != GameState::TERMINAL ==> following.ordinal() == self.ordinal() + 1,
    {
        match self {
            GameState::INITIAL => GameState::BLIND,
            GameState::BLIND => GameState::DEAL,
            GameState::DEAL => GameState::FLOPBETTING,
            GameState::FLOPBETTING => GameState::FLOP,
            GameState::FLOP => GameState::TURNBETTING,
            GameState::TURNBETTING => GameState::TURN,
            GameState::TURN => GameState::RIVERBETTING,
            GameState::RIVERBETTING => GameState::RIVER,
            GameState::RIVER => GameState::SHOWDOWN,
            GameState::SHOWDOWN => GameState::POTDISTRIBUTION,
            GameState::POTDISTRIBUTION => GameState::TERMINAL,
            GameState::TERMINAL => self,
        }
    }
}

/// Why a room turned an action down.
#[derive(PartialEq, Eq, Structural, Debug, Clone, Copy)]
pub enum GameError {
    /// The bet came from a seat other than the one whose turn it is.
    NotYourTurn,
    /// The seat has folded.
    AlreadyFolded,
    /// The player has no seat, or the seat is not in the hand.
    NotPlaying,
    /// A raise must be more than twice the bet on the table.
    RaiseTooSmall,
    /// A raise needs a bet on the table that nobody has raised.
    NoBetToRaise,
    /// A call needs a raise that nobody has called.
    NothingToCall,
    /// A check or a bet needs a round in which nobody has bet.
    BetAlreadyPlaced,
    /// The amount is below zero, or the bet on the table would pass the
    /// largest amount.
    InvalidAmount,
    /// The kind of bet is not played at this table.
    Unsupported,
    /// The phase of the hand does not take the action.
    WrongState,
    /// The deck holds fewer cards than have to be drawn.
    DeckExhausted,
    /// Every seat is taken.
    RoomFull,
    /// The player has a seat already.
    AlreadySeated,
    /// The player has no seat to give up.
    NotSeated,
    /// Only the owner of the room starts a hand.
    NotOwner,
    /// A hand needs two players.
    NotEnoughPlayers,
    /// The ranking does not give one strength for each seat.
    BadRanking,
}

/// What a player asks of the room outside a hand.
#[derive(PartialEq, Eq, Structural, Debug, Clone, Copy)]
pub enum ConnectionActionType {
    JOIN,
    QUIT,
    START,
}

#[derive(PartialEq, Eq, Debug, Clone)]
pub struct ConnectionAction {
    pub action_type: ConnectionActionType,
    pub uuid: String,
}

#[derive(PartialEq, Eq, Debug, Clone)]
pub struct BetAction {
    pub uuid: String,
    pub bet: Bet,
}

/// An input to a room. `Ranking` carries the verdict of the hand
/// comparator at showdown: one strength per seat, higher is better.
#[derive(PartialEq, Eq, Debug, Clone)]
pub enum Action {
    Bet(BetAction),
    Connection(ConnectionAction),
    Ranking(Vec<u32>),
}

/// An action as a plain value.
pub enum ActionView {
    Bet { uuid: Seq<char>, bet: Bet },
    Connection { action_type: ConnectionActionType, uuid: Seq<char> },
    Ranking { ranks: Seq<u32> },
}

impl View for Action {
    type V = ActionView;

    open spec fn view(&self) -> ActionView {
        match *self {
            Action::Bet(b) => ActionView::Bet { uuid: b.uuid@, bet: b.bet },
            Action::Connection(c) => ActionView::Connection {
                action_type: c.action_type,
                uuid: c.uuid@,
            },
            Action::Ranking(r) => ActionView::Ranking { ranks: r@ },
        }
    }
}

/// A seat at the table.
pub struct UserInfo {
    uuid: String,
    hand: Vec<Card>,
    bet: Bet,
    is_playing: bool,
    is_room_owner: bool,
    committed: i64,
    hand_rank: u32,
    winnings: i64,
}

impl View for UserInfo {
    type V = SeatView;

    closed spec fn view(&self) -> SeatView {
        SeatView {
            uuid: self.uuid@,
            hand: self.hand@,
            bet: self.bet,
            is_playing: self.is_playing,
            is_room_owner: self.is_room_owner,
            committed: self.committed as int,
            hand_rank: self.hand_rank as int,
            winnings: self.winnings as int,
        }
    }
}

/// The game of one room. Only the room's own task holds it, so every
/// step here runs alone.
pub struct PokerGame {
    users: Vec<UserInfo>,
    curr_user: usize,
    curr_blind: usize,
    community_cards: Vec<Card>,
    turn_num: i32,
    current_state: GameState,
    deck: Vec<Card>,
    pot: i64,
    betting_stage: BettingStage,
    bet_amount: i32,
}

impl View for PokerGame {
    type V = GameView;

    closed spec fn view(&self) -> GameView {
        GameView {
            users: Seq::new(self.users@.len(), |i: int| self.users@[i]@),
            curr_user: self.curr_user as int,
            curr_blind: self.curr_blind as int,
            community_cards: self.community_cards@,
            turn_num: self.turn_num as int,
            current_state: self.current_state,
            deck: self.deck@,
            pot: self.pot as int,
            betting_stage: self.betting_stage,
            bet_amount: self.bet_amount as int,
        }
    }
}

/// Whether a phase takes bets.
pub fn is_betting_state(state: GameState) -> (betting: bool)
    ensures
        betting == state.is_betting(),
{
    match state {
        GameState::FLOPBETTING => true,
        GameState::TURNBETTING => true,
        GameState::RIVERBETTING => true,
        _ => false,
    }
}

impl PokerGame {
    /// The invariant of a room.
    pub open spec fn wf(&self) -> bool {
        self@.wf()
    }

    /// An empty room with a shuffled deck of 52 cards.
    pub fn new() -> (game: PokerGame)
        ensures
            game.wf(),
            game@ == GameView::initial(game@.deck),
            is_permutation(game@.deck, full_deck()),
    {
        let mut deck = Card::newDeck();
        Card::shuffle_deck(&mut deck);
        let game = PokerGame {
            users: Vec::new(),
            curr_user: 0,
            curr_blind: 0,
            community_cards: Vec::new(),
            turn_num: 0,
            current_state: GameState::INITIAL,
            deck,
            pot: 0,
            betting_stage: BettingStage::NOBETS,
            bet_amount: 0,
        };
        proof {
            broadcast use vstd::multiset::group_multiset_axioms;

            let v = game@;
            assert(v.users =~= Seq::empty());
            assert(v.uuids() =~= Seq::empty());
            lemma_shuffled_deck(v.deck);
            v.deck.lemma_multiset_has_no_duplicates();
            assert(v.community_cards.to_multiset() =~= vstd::multiset::Multiset::empty()) by {
                assert forall|c: Card| v.community_cards.to_multiset().count(c) == 0 by {
                    vstd::seq_lib::to_multiset_contains(v.community_cards, c);
                }
            }
            assert(v.cards() =~= v.deck.to_multiset());
            assert forall|c: Card| v.cards().count(c) <= 1 by {
                if v.deck.to_multiset().contains(c) {
                }
            }
        }
        game
    }

    /// The seat of a player.
    pub fn find_seat(&self, uuid: &String) -> (found: Option<usize>)
        ensures
            match found {
                Some(i) => self@.seat_of(uuid@) == Some(i as int) && i < self@.users.len(),
                None => self@.seat_of(uuid@).is_none(),
            },
    {
        let mut i: usize = 0;
        while i < self.users.len()
            invariant
                i <= self.users@.len(),
                forall|k: int| 0 <= k < i ==> self@.uuids()[k] != uuid@,
            decreases self.users@.len() - i,
        {
            if self.users[i].uuid == *uuid {
                proof {
                    lemma_position_found(self@.uuids(), uuid@, i as int);
                }
                return Some(i);
            }
            i += 1;
        }
        proof {
            lemma_position_absent(self@.uuids(), uuid@);
        }
        None
    }

    /// Whether seat `i` is in the hand and has not folded.
    fn is_active(&self, i: usize) -> (active: bool)
        requires
            i < self@.users.len(),
        ensures
            active == self@.users[i as int].active(),
    {
        self.users[i].is_playing && self.users[i].bet.bet_type != BetType::FOLD
    }

    /// Puts a bet down for the seat whose turn it is and moves the amount
    /// into the pot.
    fn record(&mut self, bet: Bet, amount: i32)
        requires
            old(self).wf(),
            old(self)@.current_state.is_betting(),
            0 <= amount,
        ensures
            final(self)@ == old(self)@.recorded(bet, amount as int),
    {
        let i = self.curr_user;
        assert(self@.users[i as int].wf(self@.pot));
        self.users[i].bet = bet;
        self.users[i].committed = self.users[i].committed + amount as i64;
        self.pot = self.pot + amount as i64;
        assert(self@.users =~= old(self)@.recorded(bet, amount as int).users);
    }

    /// The seat whose turn it is checks.
    pub fn handle_check(&mut self) -> (res: Result<(), GameError>)
        requires
            old(self).wf(),
        ensures
            final(self).wf(),
            (final(self)@, res) == old(self)@.checked(),
    {
        if !is_betting_state(self.current_state) {
            return Err(GameError::WrongState);
        }
        if self.betting_stage != BettingStage::NOBETS {
            return Err(GameError::BetAlreadyPlaced);
        }
        let bet = Bet { bet_type: BetType::CHECK, value: 0 };
        proof {
            lemma_recorded(self@, bet, 0, self@.betting_stage, self@.bet_amount);
        }
        self.record(bet, 0);
        assert(self@ == old(self)@.recorded(bet, 0).at_stage(self@.betting_stage, self@.bet_amount));
        assert(self@.users[self@.curr_user].active());
        Ok(())
    }

    /// The seat whose turn it is bets `value`.
    pub fn handle_bet(&mut self, value: i32) -> (res: Result<(), GameError>)
        requires
            old(self).wf(),
        ensures
            final(self).wf(),
            (final(self)@, res) == old(self)@.bet_placed(value as int),
    {
        if !is_betting_state(self.current_state) {
            return Err(GameError::WrongState);
        }
        if self.betting_stage != BettingStage::NOBETS {
            return Err(GameError::BetAlreadyPlaced);
        }
        if value < 0 {
            return Err(GameError::InvalidAmount);
        }
        let bet = Bet { bet_type: BetType::BET, value };
        proof {
            lemma_recorded(self@, bet, value as int, BettingStage::BETPLACED, value as int);
        }
        self.record(bet, value);
        self.betting_stage = BettingStage::BETPLACED;
        self.bet_amount = value;
        assert(self@ == old(self)@.recorded(bet, value as int).at_stage(
            BettingStage::BETPLACED,
            value as int,
        ));
        assert(self@.users[self@.curr_user].active());
        Ok(())
    }

    /// The seat whose turn it is raises by `value`.
    pub fn handle_raise(&mut self, value: i32) -> (res: Result<(), GameError>)
        requires
            old(self).wf(),
        ensures
            final(self).wf(),
            (final(self)@, res) == old(self)@.raised(value as int),
    {
        if !is_betting_state(self.current_state) {
            return Err(GameError::WrongState);
        }
        if self.betting_stage != BettingStage::BETPLACED {
            return Err(GameError::NoBetToRaise);
        }
        if value as i64 <= 2 * (self.bet_amount as i64) {
            return Err(GameError::RaiseTooSmall);
        }
        if self.bet_amount as i64 + value as i64 > i32::MAX as i64 {
            return Err(GameError::InvalidAmount);
        }
        let bet = Bet { bet_type: BetType::RAISE, value };
        let raised_to = self.bet_amount + value;
        proof {
            lemma_recorded(self@, bet, value as int, BettingStage::RAISED, raised_to as int);
        }
        self.record(bet, value);
        self.betting_stage = BettingStage::RAISED;
        self.bet_amount = raised_to;
        assert(self@ == old(self)@.recorded(bet, value as int).at_stage(
            BettingStage::RAISED,
            raised_to as int,
        ));
        assert(self@.users[self@.curr_user].active());
        Ok(())
    }

    /// The seat whose turn it is calls the raise.
    pub fn handle_call(&mut self) -> (res: Result<(), GameError>)
        requires
            old(self).wf(),
        ensures
            final(self).wf(),
            (final(self)@, res) == old(self)@.called(),
    {
        if !is_betting_state(self.current_state) {
            return Err(GameError::WrongState);
        }
        if self.betting_stage != BettingStage::RAISED {
            return Err(GameError::NothingToCall);
        }
        let amount = self.bet_amount;
        let bet = Bet { bet_type: BetType::CALL, value: amount };
        proof {
            lemma_recorded(self@, bet, amount as int, BettingStage::CALLED, amount as int);
        }
        self.record(bet, amount);
        self.betting_stage = BettingStage::CALLED;
        assert(self@ == old(self)@.recorded(bet, amount as int).at_stage(
            BettingStage::CALLED,
            amount as int,
        ));
        assert(self@.users[self@.curr_user].active());
        Ok(())
    }

    /// The seat whose turn it is folds.
    fn handle_fold(&mut self) -> (res: Result<(), GameError>)
        requires
            old(self).wf(),
            old(self)@.current_state.is_betting(),
        ensures
            (final(self)@, res) == old(self)@.folded(),
    {
        self.record(Bet { bet_type: BetType::FOLD, value: 0 }, 0);
        Ok(())
    }

    /// How many seats are in the hand and have not folded.
    pub fn active_seats(&self) -> (count: usize)
        ensures
            count == count_active(self@.users),
    {
        let mut count: usize = 0;
        let mut i: usize = 0;
        while i < self.users.len()
            invariant
                i <= self.users@.len(),
                count <= i,
                count == count_active(self@.users.take(i as int)),
            decreases self.users@.len() - i,
        {
            proof {
                lemma_sum_push(self@.users.take(i as int), self@.users[i as int], active_flag());
                assert(self@.users.take(i as int + 1) =~= self@.users.take(i as int).push(
                    self@.users[i as int],
                ));
            }
            if self.is_active(i) {
                count += 1;
            }
            i += 1;
        }
        assert(self@.users.take(i as int) =~= self@.users);
        count
    }

    /// Whether the betting round is over: every seat still in the hand
    /// has answered the betting as it stands.
    pub fn check_betting_finished(&self) -> (finished: bool)
        ensures
            finished == self@.all_settled(),
    {
        let mut i: usize = 0;
        while i < self.users.len()
            invariant
                i <= self.users@.len(),
                forall|k: int|
                    0 <= k < i && (#[trigger] self@.users[k]).active() ==> self@.users[k].settled(
                        self@.betting_stage,
                    ),
            decreases self.users@.len() - i,
        {
            if self.is_active(i) {
                let kind = self.users[i].bet.bet_type;
                let settled = match self.betting_stage {
                    BettingStage::NOBETS => kind == BetType::CHECK,
                    BettingStage::BETPLACED => kind == BetType::BET,
                    BettingStage::RAISED => kind == BetType::RAISE,
                    BettingStage::CALLED => kind == BetType::RAISE || kind == BetType::CALL,
                    BettingStage::FINISHED => kind == BetType::RAISE || kind == BetType::CALL,
                };
                if !settled {
                    assert(self@.users[i as int].active() && !self@.users[i as int].settled(
                        self@.betting_stage,
                    ));
                    return false;
                }
            }
            i += 1;
        }
        true
    }

    /// The first seat from `lo` up to, not including, `hi` that is in the
    /// hand and has not folded.
    fn seek_active(&self, lo: usize, hi: usize) -> (found: Option<usize>)
        requires
            lo <= hi <= self@.users.len(),
        ensures
            match found {
                Some(j) => first_active_in(self@.users, lo as int, hi as int) == Some(j as int) && j
                    < hi,
                None => first_active_in(self@.users, lo as int, hi as int).is_none(),
            },
    {
        let mut i: usize = lo;
        while i < hi
            invariant
                lo <= i <= hi,
                hi <= self@.users.len(),
                first_active_in(self@.users, lo as int, hi as int) == first_active_in(
                    self@.users,
                    i as int,
                    hi as int,
                ),
            decreases hi - i,
        {
            if self.is_active(i) {
                return Some(i);
            }
            i += 1;
        }
        None
    }

    /// The first seat at or after `start`, going round the table, that is
    /// in the hand and has not folded; seat 0 if there is none.
    fn seek_active_from(&self, start: usize) -> (seat: usize)
        requires
            start <= self@.users.len(),
        ensures
            seat == first_active_from(self@.users, start as int),
    {
        match self.seek_active(start, self.users.len()) {
            Some(j) => j,
            None => match self.seek_active(0, start) {
                Some(j) => j,
                None => 0,
            },
        }
    }

    /// Moves the turn on after a bet was taken.
    fn pass_turn(&mut self)
        requires
            old(self)@.base(),
            old(self)@.current_state.is_betting(),
            old(self)@.curr_user < old(self)@.users.len(),
        ensures
            final(self)@ == old(self)@.turn_passed(),
            final(self).wf(),
    {
        proof {
            lemma_turn_passed(self@);
        }
        if self.active_seats() == 1 {
            self.current_state = GameState::POTDISTRIBUTION;
        } else if self.check_betting_finished() {
            self.current_state = self.current_state.next();
        } else {
            self.curr_user = self.seek_active_from(self.curr_user + 1);
        }
    }

    /// A bet of a player in the betting phase `game_state`. The bet is
    /// taken only from the seat whose turn it is; what it does depends on
    /// the stage of the betting; and a bet that was taken moves the turn
    /// on, ends the round or ends the hand.
    #[allow(non_snake_case)]
    pub fn betting_stage(&mut self, betAction: BetAction, game_state: GameState) -> (res: Result<
        (),
        GameError,
    >)
        requires
            old(self).wf(),
        ensures
            final(self).wf(),
            (final(self)@, res) == old(self)@.bet_step(betAction.uuid@, betAction.bet, game_state),
    {
        if self.current_state != game_state || !is_betting_state(game_state) {
            return Err(GameError::WrongState);
        }
        let seat = match self.find_seat(&betAction.uuid) {
            Some(i) => i,
            None => {
                return Err(GameError::NotPlaying);
            },
        };
        if seat != self.curr_user {
            return Err(GameError::NotYourTurn);
        }
        if self.users[seat].bet.bet_type == BetType::FOLD {
            return Err(GameError::AlreadyFolded);
        }
        if !self.users[seat].is_playing {
            return Err(GameError::NotPlaying);
        }
        proof {
            lemma_acted(self@, betAction.bet);
        }
        let bet = betAction.bet;
        let res = match bet.bet_type {
            BetType::CHECK => self.handle_check(),
            BetType::BET => self.handle_bet(bet.value),
            BetType::CALL => self.handle_call(),
            BetType::RAISE => self.handle_raise(bet.value),
            BetType::FOLD => self.handle_fold(),
            BetType::ALLIN => Err(GameError::Unsupported),
            BetType::NONE => Err(GameError::Unsupported),
        };
        match res {
            Ok(()) => {
                self.pass_turn();
                Ok(())
            },
            Err(e) => Err(e),
        }
    }
}

impl PokerGame {
    /// A player sits down.
    fn join(&mut self, uuid: String) -> (res: Result<(), GameError>)
        requires
            old(self).wf(),
        ensures
            final(self).wf(),
            (final(self)@, res) == old(self)@.joined(uuid@),
    {
        if self.current_state != GameState::INITIAL {
            return Err(GameError::WrongState);
        }
        if self.find_seat(&uuid).is_some() {
            return Err(GameError::AlreadySeated);
        }
        if self.users.len() >= MAX_SIZE {
            return Err(GameError::RoomFull);
        }
        proof {
            lemma_joined(self@, uuid@);
        }
        let is_room_owner = self.users.len() == 0;
        self.users.push(
            UserInfo {
                uuid,
                hand: Vec::new(),
                bet: Bet { bet_type: BetType::NONE, value: 0 },
                is_playing: false,
                is_room_owner,
                committed: 0,
                hand_rank: 0,
                winnings: 0,
            },
        );
        assert(self@.users =~= old(self)@.joined(uuid@).0.users);
        Ok(())
    }

    /// A player gives up the seat.
    fn quit(&mut self, uuid: String) -> (res: Result<(), GameError>)
        requires
            old(self).wf(),
        ensures
            final(self).wf(),
            (final(self)@, res) == old(self)@.quitted(uuid@),
    {
        if self.current_state != GameState::INITIAL {
            return Err(GameError::WrongState);
        }
        let seat = match self.find_seat(&uuid) {
            Some(i) => i,
            None => {
                return Err(GameError::NotSeated);
            },
        };
        proof {
            lemma_quitted(self@, uuid@);
        }
        self.users.remove(seat);
        assert(self@.users =~= old(self)@.users.remove(seat as int));
        if self.users.len() > 0 {
            self.users[0].is_room_owner = true;
        }
        self.curr_user = 0;
        self.curr_blind = 0;
        assert(self@.users =~= old(self)@.seats_without(seat as int));
        Ok(())
    }

    /// The owner starts a hand.
    fn start(&mut self, uuid: String) -> (res: Result<(), GameError>)
        requires
            old(self).wf(),
        ensures
            final(self).wf(),
            (final(self)@, res) == old(self)@.started(uuid@),
    {
        if self.current_state != GameState::INITIAL {
            return Err(GameError::WrongState);
        }
        match self.find_seat(&uuid) {
            Some(i) => {
                if i != 0 {
                    return Err(GameError::NotOwner);
                }
            },
            None => {
                return Err(GameError::NotOwner);
            },
        }
        if self.users.len() < 2 {
            return Err(GameError::NotEnoughPlayers);
        }
        proof {
            lemma_started(self@, uuid@);
        }
        let mut i: usize = 0;
        while i < self.users.len()
            invariant
                i <= self.users@.len(),
                self@.users.len() == old(self)@.users.len(),
                self@.with_seats(old(self)@.users) == old(self)@,
                forall|k: int| 0 <= k < i ==> self@.users[k] == old(self)@.users[k].entered(),
                forall|k: int| i <= k < self@.users.len() ==> self@.users[k] == old(self)@.users[k],
            decreases self.users@.len() - i,
        {
            let ghost before = self@;
            assert(before.users[i as int] == old(self)@.users[i as int]);
            self.users[i].bet = Bet { bet_type: BetType::NONE, value: 0 };
            self.users[i].is_playing = true;
            self.users[i].hand_rank = 0;
            self.users[i].winnings = 0;
            assert(self@.users =~= before.users.update(i as int, before.users[i as int].entered()));
            i += 1;
        }
        if self.turn_num < i32::MAX {
            self.turn_num = self.turn_num + 1;
        }
        self.current_state = GameState::BLIND;
        assert(self@.users =~= old(self)@.started(uuid@).0.users);
        Ok(())
    }

    /// What a player asks of the room before a hand: a seat, to give the
    /// seat up, or, from the owner, the start of a hand.
    pub fn handle_initial(&mut self, action: ConnectionAction) -> (res: Result<(), GameError>)
        requires
            old(self).wf(),
        ensures
            final(self).wf(),
            (final(self)@, res) == old(self)@.connected(action.action_type, action.uuid@),
    {
        match action.action_type {
            ConnectionActionType::JOIN => self.join(action.uuid),
            ConnectionActionType::QUIT => self.quit(action.uuid),
            ConnectionActionType::START => self.start(action.uuid),
        }
    }

    /// Settles which seat has the blind.
    pub fn handle_blind(&mut self) -> (res: Result<(), GameError>)
        requires
            old(self).wf(),
        ensures
            final(self).wf(),
            (final(self)@, res) == old(self)@.blinds_set(),
    {
        if self.current_state != GameState::BLIND {
            return Err(GameError::WrongState);
        }
        proof {
            lemma_blinds_set(self@);
        }
        self.curr_blind = self.seek_active_from(self.curr_blind);
        self.current_state = GameState::DEAL;
        Ok(())
    }

    /// Wipes the bets of the round that is over. A fold stands for the
    /// rest of the hand.
    fn reset_bets(&mut self)
        ensures
            final(self)@.with_seats(old(self)@.users) == old(self)@,
            final(self)@.users.len() == old(self)@.users.len(),
            forall|k: int|
                0 <= k < old(self)@.users.len() ==> final(self)@.users[k] == old(
                    self,
                )@.users[k].cleared(),
    {
        let mut i: usize = 0;
        while i < self.users.len()
            invariant
                i <= self.users@.len(),
                self@.users.len() == old(self)@.users.len(),
                self@.with_seats(old(self)@.users) == old(self)@,
                forall|k: int| 0 <= k < i ==> self@.users[k] == old(self)@.users[k].cleared(),
                forall|k: int| i <= k < self@.users.len() ==> self@.users[k] == old(self)@.users[k],
            decreases self.users@.len() - i,
        {
            let ghost before = self@;
            assert(before.users[i as int] == old(self)@.users[i as int]);
            if self.users[i].bet.bet_type != BetType::FOLD {
                self.users[i].bet = Bet { bet_type: BetType::NONE, value: 0 };
            }
            assert(self@.users =~= before.users.update(i as int, before.users[i as int].cleared()));
            i += 1;
        }
    }

    /// Opens a betting round.
    fn open_round(&mut self)
        requires
            old(self)@.base(),
            old(self)@.current_state.is_betting(),
            count_active(old(self)@.users) >= 2,
            old(self)@.pot <= pot_bound(old(self)@.current_state, BettingStage::NOBETS),
        ensures
            final(self)@ == old(self)@.round_opened(),
            final(self).wf(),
    {
        proof {
            lemma_round_opened(self@);
        }
        let first = self.seek_active_from(self.curr_blind);
        self.reset_bets();
        self.curr_user = first;
        self.betting_stage = BettingStage::NOBETS;
        self.bet_amount = 0;
        assert(self@.users =~= old(self)@.round_opened().users);
    }
}

impl PokerGame {
    /// Draws `num` cards off the tail of the deck, the last card first. A
    /// number below one draws nothing. Where the deck holds fewer cards,
    /// the draw fails and the deck stays as it is. No card that was drawn
    /// is still in the deck.
    #[allow(non_snake_case)]
    pub fn drawNCards(&mut self, num: i32) -> (res: Result<Vec<Card>, GameError>)
        requires
            old(self).wf(),
        ensures
            final(self).wf(),
            num > old(self)@.deck.len() ==> res.is_err() && res.unwrap_err()
                == GameError::DeckExhausted && final(self)@ == old(self)@,
            num <= 0 ==> res.is_ok() && res.unwrap()@.len() == 0 && final(self)@ == old(self)@,
            0 < num <= old(self)@.deck.len() ==> res.is_ok() && res.unwrap()@ == drawn(
                old(self)@.deck,
                num as int,
            ) && final(self)@ == old(self)@.without_top(num as int),
            res.is_ok() ==> forall|i: int|
                0 <= i < res.unwrap()@.len() ==> !final(self)@.deck.contains(
                    #[trigger] res.unwrap()@[i],
                ),
    {
        let mut cards: Vec<Card> = Vec::new();
        if num <= 0 {
            return Ok(cards);
        }
        let n = num as usize;
        if n > self.deck.len() {
            return Err(GameError::DeckExhausted);
        }
        proof {
            lemma_without_top(self@, n as int);
        }
        let mut i: usize = 0;
        assert(self@.deck =~= old(self)@.deck.take(old(self)@.deck.len() - 0));
        while i < n
            invariant
                i <= n <= old(self)@.deck.len(),
                self@ == old(self)@.without_top(i as int),
                cards@ == drawn(old(self)@.deck, i as int),
            decreases n - i,
        {
            let card = self.deck.pop().unwrap();
            cards.push(card);
            i += 1;
            assert(self@.deck =~= old(self)@.deck.take(old(self)@.deck.len() - i));
            assert(cards@ =~= drawn(old(self)@.deck, i as int));
        }
        Ok(cards)
    }

    /// Reveals the community cards that the phase calls for.
    fn reveal_next(&mut self) -> (res: Result<(), GameError>)
        requires
            old(self).wf(),
        ensures
            final(self).wf(),
            (final(self)@, res) == old(self)@.revealed(),
    {
        let state = self.current_state;
        let n: i32 = match state {
            GameState::FLOP => 3,
            GameState::TURN => 1,
            GameState::RIVER => 1,
            _ => {
                return Err(GameError::WrongState);
            },
        };
        proof {
            lemma_revealed(self@);
        }
        let mut cards = match self.drawNCards(n) {
            Ok(cards) => cards,
            Err(e) => {
                return Err(e);
            },
        };
        self.community_cards.append(&mut cards);
        self.current_state = state.next();
        assert(self@ == old(self)@.community_dealt());
        if state != GameState::RIVER {
            self.open_round();
        }
        Ok(())
    }

    /// The flop: three community cards are revealed and the second
    /// betting round opens.
    pub fn reveal_flop(&mut self) -> (res: Result<(), GameError>)
        requires
            old(self).wf(),
        ensures
            final(self).wf(),
            old(self)@.current_state == GameState::FLOP ==> (final(self)@, res) == old(
                self,
            )@.revealed(),
            old(self)@.current_state != GameState::FLOP ==> final(self)@ == old(self)@ && res
                == Err::<(), GameError>(GameError::WrongState),
    {
        if self.current_state != GameState::FLOP {
            return Err(GameError::WrongState);
        }
        self.reveal_next()
    }

    /// The turn: a fourth community card is revealed and the third
    /// betting round opens.
    pub fn reveal_turn(&mut self) -> (res: Result<(), GameError>)
        requires
            old(self).wf(),
        ensures
            final(self).wf(),
            old(self)@.current_state == GameState::TURN ==> (final(self)@, res) == old(
                self,
            )@.revealed(),
            old(self)@.current_state != GameState::TURN ==> final(self)@ == old(self)@ && res
                == Err::<(), GameError>(GameError::WrongState),
    {
        if self.current_state != GameState::TURN {
            return Err(GameError::WrongState);
        }
        self.reveal_next()
    }

    /// The river: the fifth community card is revealed and the hand goes
    /// to the showdown.
    pub fn reveal_river(&mut self) -> (res: Result<(), GameError>)
        requires
            old(self).wf(),
        ensures
            final(self).wf(),
            old(self)@.current_state == GameState::RIVER ==> (final(self)@, res) == old(
                self,
            )@.revealed(),
            old(self)@.current_state != GameState::RIVER ==> final(self)@ == old(self)@ && res
                == Err::<(), GameError>(GameError::WrongState),
    {
        if self.current_state != GameState::RIVER {
            return Err(GameError::WrongState);
        }
        self.reveal_next()
    }

    /// How many seats are in the hand.
    fn playing_seats(&self) -> (count: usize)
        ensures
            count == count_playing(self@.users),
            count <= self@.users.len(),
    {
        let mut count: usize = 0;
        let mut i: usize = 0;
        while i < self.users.len()
            invariant
                i <= self.users@.len(),
                count <= i,
                count == count_playing(self@.users.take(i as int)),
            decreases self.users@.len() - i,
        {
            proof {
                lemma_sum_push(self@.users.take(i as int), self@.users[i as int], playing_flag());
                assert(self@.users.take(i as int + 1) =~= self@.users.take(i as int).push(
                    self@.users[i as int],
                ));
            }
            if self.users[i].is_playing {
                count += 1;
            }
            i += 1;
        }
        assert(self@.users.take(i as int) =~= self@.users);
        count
    }
}

impl PokerGame {
    /// The deal: every seat in the hand gets two cards off the tail of
    /// the deck, seat by seat, and the first betting round opens. Where
    /// the deck is too short for all of them, nothing is dealt.
    pub fn handle_deal(&mut self) -> (res: Result<(), GameError>)
        requires
            old(self).wf(),
        ensures
            final(self).wf(),
            (final(self)@, res) == old(self)@.dealt(),
    {
        if self.current_state != GameState::DEAL {
            return Err(GameError::WrongState);
        }
        let playing = self.playing_seats();
        if self.deck.len() < 2 * playing {
            return Err(GameError::DeckExhausted);
        }
        let ghost start = self@;
        let ghost goal = dealt_seats(start.users, start.deck);
        let mut served: usize = 0;
        let mut i: usize = 0;
        assert(start.users.take(0) =~= Seq::empty());
        assert(self@.deck =~= start.deck.take(start.deck.len() - 0));
        while i < self.users.len()
            invariant
                i <= self.users@.len(),
                self@.users.len() == start.users.len(),
                self@.with_seats(start.users).with_deck(start.deck) == start,
                start.wf(),
                start.current_state == GameState::DEAL,
                goal == dealt_seats(start.users, start.deck),
                served == count_playing(start.users.take(i as int)),
                served <= playing,
                playing == count_playing(start.users),
                2 * playing <= start.deck.len(),
                self@.deck == start.deck.take(start.deck.len() - 2 * served),
                forall|k: int| 0 <= k < i ==> self@.users[k] == goal[k],
                forall|k: int| i <= k < self@.users.len() ==> self@.users[k] == start.users[k],
                self@.deck.to_multiset().add(held_cards(self@.users)) == start.deck.to_multiset().add(
                    held_cards(start.users),
                ),
            decreases self.users@.len() - i,
        {
            let ghost before = self@;
            proof {
                lemma_sum_push(start.users.take(i as int), start.users[i as int], playing_flag());
                assert(start.users.take(i as int + 1) =~= start.users.take(i as int).push(
                    start.users[i as int],
                ));
                lemma_sum_prefix(start.users, i as int + 1, playing_flag());
                assert(before.users[i as int] == start.users[i as int]);
            }
            if self.users[i].is_playing {
                let first = self.deck.pop().unwrap();
                let second = self.deck.pop().unwrap();
                self.users[i].hand.push(first);
                self.users[i].hand.push(second);
                served += 1;
                proof {
                    broadcast use vstd::multiset::group_multiset_axioms;

                    let seat = before.users[i as int];
                    let one = SeatView { hand: seat.hand.push(first), ..seat };
                    let two = SeatView { hand: one.hand.push(second), ..one };
                    lemma_held_gain(before.users, i as int, one, first);
                    lemma_held_gain(before.users.update(i as int, one), i as int, two, second);
                    assert(before.users.update(i as int, one).update(i as int, two)
                        =~= self@.users);
                    let mid = before.deck.drop_last();
                    assert(before.deck =~= mid.push(first));
                    assert(mid =~= self@.deck.push(second));
                    vstd::seq_lib::to_multiset_build(mid, first);
                    vstd::seq_lib::to_multiset_build(self@.deck, second);
                    assert(self@.deck.to_multiset().add(held_cards(self@.users))
                        =~= before.deck.to_multiset().add(held_cards(before.users)));
                    assert(self@.deck =~= start.deck.take(start.deck.len() - 2 * served));
                    assert(self@.users[i as int] == goal[i as int]);
                }
            }
            i += 1;
        }
        self.current_state = GameState::FLOPBETTING;
        proof {
            assert(start.users.take(i as int) =~= start.users);
            assert(self@.users =~= goal);
            assert(self@ == start.hands_dealt());
            assert(self@.cards() =~= start.cards()) by {
                broadcast use vstd::multiset::group_multiset_axioms;

                assert forall|c: Card| self@.cards().count(c) == start.cards().count(c) by {
                    assert(self@.deck.to_multiset().add(held_cards(self@.users)).count(c)
                        == start.deck.to_multiset().add(held_cards(start.users)).count(c));
                }
            }
            lemma_hands_dealt(start);
        }
        self.open_round();
        Ok(())
    }
}

/// Whether the room waits for an action in a phase.
pub fn takes_input_state(state: GameState) -> (waits: bool)
    ensures
        waits == takes_input(state),
{
    match state {
        GameState::INITIAL => true,
        GameState::FLOPBETTING => true,
        GameState::TURNBETTING => true,
        GameState::RIVERBETTING => true,
        GameState::SHOWDOWN => true,
        GameState::TERMINAL => true,
        _ => false,
    }
}

impl PokerGame {
    /// The showdown: the strength of each seat's hand, as the comparator
    /// found it, is put down, and the pot is due. `ranks` holds one
    /// strength for each seat, in seat order; a higher one is better.
    pub fn showdown(&mut self, ranks: Vec<u32>) -> (res: Result<(), GameError>)
        requires
            old(self).wf(),
        ensures
            final(self).wf(),
            (final(self)@, res) == old(self)@.ranked(ranks@),
    {
        if self.current_state != GameState::SHOWDOWN {
            return Err(GameError::WrongState);
        }
        if ranks.len() != self.users.len() {
            return Err(GameError::BadRanking);
        }
        proof {
            lemma_ranked(self@, ranks@);
        }
        let mut i: usize = 0;
        while i < self.users.len()
            invariant
                i <= self.users@.len(),
                ranks@.len() == self.users@.len(),
                old(self)@.current_state == GameState::SHOWDOWN,
                self@.users.len() == old(self)@.users.len(),
                self@.with_seats(old(self)@.users) == old(self)@,
                forall|k: int| 0 <= k < i ==> self@.users[k] == old(self)@.ranked(ranks@).0.users[k],
                forall|k: int| i <= k < self@.users.len() ==> self@.users[k] == old(self)@.users[k],
            decreases self.users@.len() - i,
        {
            let ghost before = self@;
            assert(before.users[i as int] == old(self)@.users[i as int]);
            self.users[i].hand_rank = ranks[i];
            assert(self@.users =~= before.users.update(
                i as int,
                old(self)@.ranked(ranks@).0.users[i as int],
            ));
            i += 1;
        }
        self.current_state = GameState::POTDISTRIBUTION;
        assert(self@.users =~= old(self)@.ranked(ranks@).0.users);
        Ok(())
    }

    /// The greatest strength among the seats still in the hand.
    fn best_rank(&self) -> (top: u32)
        ensures
            top == top_rank(self@.users),
    {
        let mut top: u32 = 0;
        let mut i: usize = 0;
        while i < self.users.len()
            invariant
                i <= self.users@.len(),
                top == top_rank(self@.users.take(i as int)),
            decreases self.users@.len() - i,
        {
            proof {
                let upto = self@.users.take(i as int + 1);
                assert(upto.drop_last() =~= self@.users.take(i as int));
                assert(upto.last() == self@.users[i as int]);
            }
            if self.is_active(i) && self.users[i].hand_rank > top {
                top = self.users[i].hand_rank;
            }
            i += 1;
        }
        assert(self@.users.take(i as int) =~= self@.users);
        top
    }

    /// Whether seat `i` is still in the hand with the strength `top`.
    fn has_rank(&self, i: usize, top: u32) -> (yes: bool)
        requires
            i < self@.users.len(),
        ensures
            yes == (winner_flag(top as int)(self@.users[i as int]) == 1),
    {
        self.is_active(i) && self.users[i].hand_rank == top
    }

    /// Pays the pot out: in equal shares to the seats that win, and what
    /// is left over after equal shares to the first of them. The hand is
    /// over then.
    pub fn distribute_pot(&mut self) -> (res: Result<(), GameError>)
        requires
            old(self).wf(),
        ensures
            final(self).wf(),
            (final(self)@, res) == old(self)@.paid(),
    {
        if self.current_state != GameState::POTDISTRIBUTION {
            return Err(GameError::WrongState);
        }
        let ghost start = self@;
        let top = self.best_rank();
        let mut winners: usize = 0;
        let mut i: usize = 0;
        while i < self.users.len()
            invariant
                i <= self.users@.len(),
                winners <= i,
                self@ == start,
                top == top_rank(start.users),
                winners == winners_before(start.users, i as int),
            decreases self.users@.len() - i,
        {
            proof {
                lemma_sum_push(
                    start.users.take(i as int),
                    start.users[i as int],
                    winner_flag(top as int),
                );
                assert(start.users.take(i as int + 1) =~= start.users.take(i as int).push(
                    start.users[i as int],
                ));
            }
            if self.has_rank(i, top) {
                winners += 1;
            }
            i += 1;
        }
        proof {
            assert(start.users.take(i as int) =~= start.users);
            assert(start.users[0].wf(start.pot));
            assert forall|k: int| 0 <= k < start.users.len() implies 0 <= (
            #[trigger] start.users[k]).hand_rank by {
                assert(start.users[k].wf(start.pot));
            }
            lemma_payout(start.users, start.pot, 0);
            lemma_paid(start);
        }
        let share = self.pot / (winners as i64);
        let rest = self.pot % (winners as i64);
        let mut seen: usize = 0;
        let mut j: usize = 0;
        while j < self.users.len()
            invariant
                j <= self.users@.len(),
                seen <= j,
                self@.users.len() == start.users.len(),
                self@.with_seats(start.users) == start,
                start.wf(),
                start.current_state == GameState::POTDISTRIBUTION,
                count_active(start.users) >= 1,
                top == top_rank(start.users),
                1 <= winners == count_winners(start.users),
                share == start.pot / (winners as int),
                rest == start.pot % (winners as int),
                seen == winners_before(start.users, j as int),
                forall|k: int| 0 <= k < j ==> self@.users[k] == start.paid().0.users[k],
                forall|k: int| j <= k < self@.users.len() ==> self@.users[k] == start.users[k],
            decreases self.users@.len() - j,
        {
            let ghost before = self@;
            proof {
                lemma_sum_push(
                    start.users.take(j as int),
                    start.users[j as int],
                    winner_flag(top as int),
                );
                assert(start.users.take(j as int + 1) =~= start.users.take(j as int).push(
                    start.users[j as int],
                ));
                assert(before.users[j as int] == start.users[j as int]);
                assert forall|k: int| 0 <= k < start.users.len() implies 0 <= (
                #[trigger] start.users[k]).hand_rank by {
                    assert(start.users[k].wf(start.pot));
                }
                lemma_payout(start.users, start.pot, j as int);
            }
            if self.has_rank(j, top) {
                if seen == 0 {
                    self.users[j].winnings = share + rest;
                } else {
                    self.users[j].winnings = share;
                }
                seen += 1;
            } else {
                self.users[j].winnings = 0;
            }
            assert(self@.users =~= before.users.update(j as int, start.paid().0.users[j as int]));
            j += 1;
        }
        self.current_state = GameState::TERMINAL;
        assert(self@.users =~= start.paid().0.users);
        Ok(())
    }

    /// Calls the hand off: the seats stay, everything of the hand is
    /// wiped, and a newly shuffled deck of 52 cards waits for the next
    /// start.
    fn void_hand(&mut self)
        requires
            old(self).wf(),
        ensures
            final(self).wf(),
            is_permutation(final(self)@.deck, full_deck()),
            final(self)@ == old(self)@.voided(final(self)@.deck),
    {
        let mut deck = Card::newDeck();
        Card::shuffle_deck(&mut deck);
        proof {
            lemma_voided(self@, deck@);
        }
        let mut i: usize = 0;
        while i < self.users.len()
            invariant
                i <= self.users@.len(),
                self@.users.len() == old(self)@.users.len(),
                self@.with_seats(old(self)@.users) == old(self)@,
                forall|k: int| 0 <= k < i ==> self@.users[k] == old(self)@.users[k].vacated(),
                forall|k: int| i <= k < self@.users.len() ==> self@.users[k] == old(self)@.users[k],
            decreases self.users@.len() - i,
        {
            let ghost before = self@;
            assert(before.users[i as int] == old(self)@.users[i as int]);
            self.users[i].hand = Vec::new();
            self.users[i].bet = Bet { bet_type: BetType::NONE, value: 0 };
            self.users[i].is_playing = false;
            self.users[i].committed = 0;
            self.users[i].hand_rank = 0;
            self.users[i].winnings = 0;
            assert(self@.users[i as int].hand =~= Seq::empty());
            assert(self@.users =~= before.users.update(i as int, before.users[i as int].vacated()));
            i += 1;
        }
        self.curr_user = 0;
        self.curr_blind = 0;
        self.community_cards = Vec::new();
        self.current_state = GameState::INITIAL;
        self.deck = deck;
        self.pot = 0;
        self.betting_stage = BettingStage::NOBETS;
        self.bet_amount = 0;
        assert(self@.users =~= old(self)@.voided(self@.deck).users);
        assert(self@.community_cards =~= Seq::empty());
    }

    /// One step of a phase that the room works off by itself: the blind,
    /// the deal, a reveal or the payout. In any other phase nothing
    /// happens.
    fn work_off(&mut self) -> (res: Result<(), GameError>)
        requires
            old(self).wf(),
        ensures
            final(self).wf(),
            (final(self)@, res) == old(self)@.system_step(),
            res.is_ok() ==> old(self)@.grows_to(final(self)@),
            res.is_err() ==> res == Err::<(), GameError>(GameError::DeckExhausted),
    {
        let res = match self.current_state {
            GameState::BLIND => self.handle_blind(),
            GameState::DEAL => self.handle_deal(),
            GameState::FLOP => self.reveal_next(),
            GameState::TURN => self.reveal_next(),
            GameState::RIVER => self.reveal_next(),
            GameState::POTDISTRIBUTION => self.distribute_pot(),
            _ => Ok(()),
        };
        assert(self@.community_cards.take(old(self)@.community_cards.len() as int)
            =~= old(self)@.community_cards);
        res
    }

    /// Hands a failure on; where the deck ran out, the hand is called off
    /// first.
    fn give_up(&mut self, e: GameError) -> (res: Result<(), GameError>)
        requires
            old(self).wf(),
        ensures
            final(self).wf(),
            GameView::ends_in((old(self)@, Err::<(), GameError>(e)), final(self)@, res),
    {
        if e == GameError::DeckExhausted {
            self.void_hand();
        }
        Err(e)
    }

    /// Works off the blind and the deal, where the room is in one of them.
    fn open_hand(&mut self) -> (res: Result<(), GameError>)
        requires
            old(self).wf(),
        ensures
            final(self).wf(),
            GameView::ends_in(old(self)@.opened(), final(self)@, res),
            res.is_ok() ==> old(self)@.grows_to(final(self)@),
    {
        assert(self@.community_cards.take(self@.community_cards.len() as int)
            =~= self@.community_cards);
        if self.current_state == GameState::BLIND {
            let blind = self.handle_blind();
            assert(blind.is_ok());
        }
        if self.current_state == GameState::DEAL {
            match self.handle_deal() {
                Ok(()) => {
                    assert(self@.community_cards.take(old(self)@.community_cards.len() as int)
                        =~= old(self)@.community_cards);
                    Ok(())
                },
                Err(e) => self.give_up(e),
            }
        } else {
            Ok(())
        }
    }

    /// Works off the phases that need no action, until the room waits for
    /// one: the blind and the deal, each reveal, the payout. Where the
    /// deck runs out on the way, the hand is called off and the failure
    /// is handed back.
    pub fn advance(&mut self) -> (res: Result<(), GameError>)
        requires
            old(self).wf(),
        ensures
            final(self).wf(),
            old(self)@.settles_to(final(self)@, res),
            res.is_ok() ==> old(self)@.grows_to(final(self)@),
    {
        assert(self@.community_cards.take(self@.community_cards.len() as int)
            =~= self@.community_cards);
        while !takes_input_state(self.current_state)
            invariant
                self.wf(),
                self@.settled() == old(self)@.settled(),
                old(self)@.grows_to(self@),
            decreases 12 - self@.current_state.ordinal(),
        {
            let ghost before = self@;
            match self.work_off() {
                Ok(()) => {
                    assert(self@.current_state.ordinal() > before.current_state.ordinal());
                    assert(self@.community_cards.take(old(self)@.community_cards.len() as int)
                        =~= old(self)@.community_cards) by {
                        assert(self@.community_cards.take(before.community_cards.len() as int)
                            == before.community_cards);
                    }
                },
                Err(e) => {
                    return self.give_up(e);
                },
            }
        }
        Ok(())
    }

    /// A player leaves in a betting phase: the seat is folded and stays
    /// at the table, and the room does not wait for it any more. Where the
    /// turn was with that seat, or its fold ends the round or the hand,
    /// the turn moves on as after a fold.
    pub fn leave_hand(&mut self, uuid: String) -> (res: Result<(), GameError>)
        requires
            old(self).wf(),
        ensures
            final(self).wf(),
            (final(self)@, res) == old(self)@.left_hand(uuid@),
    {
        if !is_betting_state(self.current_state) {
            return Err(GameError::WrongState);
        }
        let seat = match self.find_seat(&uuid) {
            Some(i) => i,
            None => {
                return Err(GameError::NotSeated);
            },
        };
        if !self.is_active(seat) {
            return Ok(());
        }
        proof {
            lemma_left_hand(self@, uuid@);
            lemma_folded_at(self@, seat as int);
        }
        self.users[seat].bet = Bet { bet_type: BetType::FOLD, value: 0 };
        assert(self@.users =~= old(self)@.folded_at(seat as int).users);
        if seat == self.curr_user || self.active_seats() == 1 || self.check_betting_finished() {
            self.pass_turn();
        }
        Ok(())
    }

    /// Takes one action as the room's task takes it: the action, as `run`
    /// has it, and then every phase that needs no action. With the result
    /// comes whether the room now waits for the ranking of the hands.
    pub fn step(&mut self, action: Action) -> (out: (Result<(), GameError>, bool))
        requires
            old(self).wf(),
        ensures
            final(self).wf(),
            GameView::ends_in(old(self)@.stepped(action@), final(self)@, out.0),
            out.1 == (out.0.is_ok() && final(self)@.current_state == GameState::SHOWDOWN),
            out.0.is_ok() ==> old(self)@.grows_to(final(self)@),
    {
        let res = match self.run(action) {
            Ok(()) => {
                let ghost mid = self@;
                let res = self.advance();
                proof {
                    if res.is_ok() {
                        assert(self@.community_cards.take(old(self)@.community_cards.len() as int)
                            =~= old(self)@.community_cards) by {
                            assert(self@.community_cards.take(mid.community_cards.len() as int)
                                == mid.community_cards);
                        }
                    }
                }
                res
            },
            Err(e) => Err(e),
        };
        let asks = match res {
            Ok(()) => self.current_state == GameState::SHOWDOWN,
            Err(_) => false,
        };
        (res, asks)
    }

    /// Takes one action, as the phase that the room is in has it.
    /// Before a hand the room takes a connection, in a betting phase a
    /// bet or a player's leaving, at the showdown a ranking, and refuses
    /// anything else. In a
    /// phase that the room works off by itself the action is left aside
    /// and the phase does its step. After the last phase nothing happens.
    /// Where the action starts a hand, the blind and the deal follow at
    /// once. A refused action leaves the room as it was.
    pub fn run(&mut self, action: Action) -> (res: Result<(), GameError>)
        requires
            old(self).wf(),
        ensures
            final(self).wf(),
            old(self)@.ran(action@, final(self)@, res),
            res.is_ok() ==> old(self)@.grows_to(final(self)@),
    {
        match self.take(action) {
            Ok(()) => {
                let ghost mid = self@;
                let res = self.open_hand();
                proof {
                    if res.is_ok() {
                        assert(self@.community_cards.take(old(self)@.community_cards.len() as int)
                            =~= old(self)@.community_cards) by {
                            assert(self@.community_cards.take(mid.community_cards.len() as int)
                                == mid.community_cards);
                        }
                    }
                }
                res
            },
            Err(e) => self.give_up(e),
        }
    }

    /// Takes an action in the phase that the room is in, and no more.
    fn take(&mut self, action: Action) -> (res: Result<(), GameError>)
        requires
            old(self).wf(),
        ensures
            final(self).wf(),
            (final(self)@, res) == old(self)@.input_step(action@),
            res.is_ok() ==> old(self)@.grows_to(final(self)@),
    {
        let state = self.current_state;
        proof {
            assert(self@.community_cards.take(self@.community_cards.len() as int)
                =~= self@.community_cards);
            match action@ {
                ActionView::Bet { uuid, bet } => {
                    lemma_bet_step(self@, uuid, bet, state);
                },
                ActionView::Connection { action_type, uuid } => {
                    lemma_left_hand(self@, uuid);
                },
                _ => {},
            }
        }
        if state == GameState::INITIAL {
            match action {
                Action::Connection(connection) => self.handle_initial(connection),
                _ => Err(GameError::WrongState),
            }
        } else if is_betting_state(state) {
            match action {
                Action::Bet(bet) => self.betting_stage(bet, state),
                Action::Connection(connection) => {
                    if connection.action_type == ConnectionActionType::QUIT {
                        self.leave_hand(connection.uuid)
                    } else {
                        Err(GameError::WrongState)
                    }
                },
                _ => Err(GameError::WrongState),
            }
        } else if state == GameState::SHOWDOWN {
            match action {
                Action::Ranking(ranks) => self.showdown(ranks),
                _ => Err(GameError::WrongState),
            }
        } else {
            self.work_off()
        }
    }

    /// A bet in the first betting round.
    pub fn bet(&mut self, bet: BetAction) -> (res: Result<(), GameError>)
        requires
            old(self).wf(),
        ensures
            final(self).wf(),
            (final(self)@, res) == old(self)@.bet_step(bet.uuid@, bet.bet, GameState::FLOPBETTING),
    {
        self.betting_stage(bet, GameState::FLOPBETTING)
    }

    /// A bet in the second betting round.
    pub fn bet_turn(&mut self, bet: BetAction) -> (res: Result<(), GameError>)
        requires
            old(self).wf(),
        ensures
            final(self).wf(),
            (final(self)@, res) == old(self)@.bet_step(bet.uuid@, bet.bet, GameState::TURNBETTING),
    {
        self.betting_stage(bet, GameState::TURNBETTING)
    }

    /// A bet in the third betting round.
    pub fn bet_river(&mut self, bet: BetAction) -> (res: Result<(), GameError>)
        requires
            old(self).wf(),
        ensures
            final(self).wf(),
            (final(self)@, res) == old(self)@.bet_step(bet.uuid@, bet.bet, GameState::RIVERBETTING),
    {
        self.betting_stage(bet, GameState::RIVERBETTING)
    }
}

impl UserInfo {
    pub fn uuid(&self) -> (uuid: &String)
        ensures
            uuid@ == self@.uuid,
    {
        &self.uuid
    }

    pub fn hand(&self) -> (hand: &Vec<Card>)
        ensures
            hand@ == self@.hand,
    {
        &self.hand
    }

    pub fn bet(&self) -> (bet: Bet)
        ensures
            bet == self@.bet,
    {
        self.bet
    }

    pub fn is_playing(&self) -> (playing: bool)
        ensures
            playing == self@.is_playing,
    {
        self.is_playing
    }

    pub fn is_room_owner(&self) -> (owner: bool)
        ensures
            owner == self@.is_room_owner,
    {
        self.is_room_owner
    }

    pub fn committed(&self) -> (amount: i64)
        ensures
            amount == self@.committed,
    {
        self.committed
    }

    pub fn hand_rank(&self) -> (rank: u32)
        ensures
            rank == self@.hand_rank,
    {
        self.hand_rank
    }

    pub fn winnings(&self) -> (amount: i64)
        ensures
            amount == self@.winnings,
    {
        self.winnings
    }
}

impl PokerGame {
    /// The seat at a place of the table, if the place is taken.
    pub fn seat(&self, i: usize) -> (seat: Option<&UserInfo>)
        ensures
            i < self@.users.len() ==> seat.is_some() && seat.unwrap()@ == self@.users[i as int],
            i >= self@.users.len() ==> seat.is_none(),
    {
        if i < self.users.len() {
            Some(&self.users[i])
        } else {
            None
        }
    }

    pub fn seat_count(&self) -> (count: usize)
        ensures
            count == self@.users.len(),
    {
        self.users.len()
    }

    /// The seat whose turn it is.
    pub fn active_seat(&self) -> (seat: usize)
        ensures
            seat == self@.curr_user,
    {
        self.curr_user
    }

    /// The seat that has the blind.
    pub fn blind_seat(&self) -> (seat: usize)
        ensures
            seat == self@.curr_blind,
    {
        self.curr_blind
    }

    pub fn community_cards(&self) -> (cards: &Vec<Card>)
        ensures
            cards@ == self@.community_cards,
    {
        &self.community_cards
    }

    pub fn deck(&self) -> (cards: &Vec<Card>)
        ensures
            cards@ == self@.deck,
    {
        &self.deck
    }

    /// How many hands were started.
    pub fn turn_num(&self) -> (hands: i32)
        ensures
            hands == self@.turn_num,
    {
        self.turn_num
    }

    pub fn state(&self) -> (state: GameState)
        ensures
            state == self@.current_state,
    {
        self.current_state
    }

    pub fn pot(&self) -> (pot: i64)
        ensures
            pot == self@.pot,
    {
        self.pot
    }

    pub fn stage(&self) -> (stage: BettingStage)
        ensures
            stage == self@.betting_stage,
    {
        self.betting_stage
    }

    /// The bet on the table: what a call has to match.
    pub fn bet_amount(&self) -> (amount: i32)
        ensures
            amount == self@.bet_amount,
    {
        self.bet_amount
    }
}

impl GameError {
    /// The error in words, as a plain value.
    pub open spec fn text(self) -> Seq<char> {
        match self {
            GameError::NotYourTurn => "Not your turn"@,
            GameError::AlreadyFolded => "User already folded. Invalid move"@,
            GameError::NotPlaying => "Game is in progress, user is not playing"@,
            GameError::RaiseTooSmall => "Raise amount too small"@,
            GameError::NoBetToRaise => "Cannot raise as bet has not been placed yet"@,
            GameError::NothingToCall => "Cannot call as bet has not been raised"@,
            GameError::BetAlreadyPlaced => "Could not check or bet as bet has already been placed"@,
            GameError::InvalidAmount => "Invalid amount"@,
            GameError::Unsupported => "This kind of bet is not supported"@,
            GameError::WrongState => "The game does not take this action now"@,
            GameError::DeckExhausted => "The deck is exhausted"@,
            GameError::RoomFull => "The room is full"@,
            GameError::AlreadySeated => "User is already seated"@,
            GameError::NotSeated => "User is not seated"@,
            GameError::NotOwner => "Only the room owner can start the game"@,
            GameError::NotEnoughPlayers => "Not enough players"@,
            GameError::BadRanking => "The ranking does not match the seats"@,
        }
    }

    /// The error in words.
    pub fn message(&self) -> (message: String)
        ensures
            message@ == self.text(),
    {
        let text = match self {
            GameError::NotYourTurn => "Not your turn",
            GameError::AlreadyFolded => "User already folded. Invalid move",
            GameError::NotPlaying => "Game is in progress, user is not playing",
            GameError::RaiseTooSmall => "Raise amount too small",
            GameError::NoBetToRaise => "Cannot raise as bet has not been placed yet",
            GameError::NothingToCall => "Cannot call as bet has not been raised",
            GameError::BetAlreadyPlaced => "Could not check or bet as bet has already been placed",
            GameError::InvalidAmount => "Invalid amount",
            GameError::Unsupported => "This kind of bet is not supported",
            GameError::WrongState => "The game does not take this action now",
            GameError::DeckExhausted => "The deck is exhausted",
            GameError::RoomFull => "The room is full",
            GameError::AlreadySeated => "User is already seated",
            GameError::NotSeated => "User is not seated",
            GameError::NotOwner => "Only the room owner can start the game",
            GameError::NotEnoughPlayers => "Not enough players",
            GameError::BadRanking => "The ranking does not match the seats",
        };
        text.to_owned()
    }
}

} // verus!
