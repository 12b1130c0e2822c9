//! The room as a plain value, and what each step of a hand does to it.
use vstd::prelude::*;
use vstd::multiset::Multiset;
use crate::cards::{full_deck, is_permutation, lemma_shuffled_deck, Card};
use crate::lookup::{
    is_first_at, lemma_position, lemma_position_absent, lemma_position_found,
    lemma_remove_keeps_distinct, position,
};
use crate::poker_state::{
    ActionView, Bet, BetType, BettingStage, ConnectionActionType, GameError, GameState, MAX_SIZE,
};

verus! {

/// The largest amount of one bet.
pub open spec fn amount_max() -> int {
    0x7fff_ffff
}

/// A seat as a plain value.
pub struct SeatView {
    pub uuid: Seq<char>,
    pub hand: Seq<Card>,
    pub bet: Bet,
    pub is_playing: bool,
    pub is_room_owner: bool,
    /// What the seat has put into the pot in this hand.
    pub committed: int,
    /// The strength of the seat's hand, as the comparator gave it.
    pub hand_rank: int,
    /// What the seat was paid from the pot.
    pub winnings: int,
}

impl SeatView {
    /// The seat of a player who just sat down.
    pub open spec fn fresh(uuid: Seq<char>, is_room_owner: bool) -> SeatView {
        SeatView {
            uuid,
            hand: Seq::empty(),
            bet: Bet { bet_type: BetType::NONE, value: 0 },
            is_playing: false,
            is_room_owner,
            committed: 0,
            hand_rank: 0,
            winnings: 0,
        }
    }

    /// In the hand and not folded.
    pub open spec fn active(self) -> bool {
        self.is_playing && self.bet.bet_type != BetType::FOLD
    }

    /// The seat has answered the betting as it stands: it checked where
    /// nobody bet, it made the bet or the raise that stands, or it called
    /// the raise.
    pub open spec fn settled(self, stage: BettingStage) -> bool {
        match stage {
            BettingStage::NOBETS => self.bet.bet_type == BetType::CHECK,
            BettingStage::BETPLACED => self.bet.bet_type == BetType::BET,
            BettingStage::RAISED => self.bet.bet_type == BetType::RAISE,
            BettingStage::CALLED => self.bet.bet_type == BetType::RAISE || self.bet.bet_type
                == BetType::CALL,
            BettingStage::FINISHED => self.bet.bet_type == BetType::RAISE || self.bet.bet_type
                == BetType::CALL,
        }
    }

    /// The seat with a bet recorded and `amount` more put into the pot.
    pub open spec fn with_bet(self, bet: Bet, amount: int) -> SeatView {
        SeatView { bet, committed: self.committed + amount, ..self }
    }

    /// The seat as a hand begins: in the hand, nothing bet, won or ranked.
    pub open spec fn entered(self) -> SeatView {
        SeatView {
            bet: Bet { bet_type: BetType::NONE, value: 0 },
            is_playing: true,
            hand_rank: 0,
            winnings: 0,
            ..self
        }
    }

    /// The seat as a betting round begins: a fold stands, any other bet is
    /// wiped.
    pub open spec fn cleared(self) -> SeatView {
        if self.bet.bet_type == BetType::FOLD {
            self
        } else {
            SeatView { bet: Bet { bet_type: BetType::NONE, value: 0 }, ..self }
        }
    }

    /// The seat with no trace of a hand.
    pub open spec fn vacated(self) -> SeatView {
        SeatView::fresh(self.uuid, self.is_room_owner)
    }

    pub open spec fn wf(self, pot: int) -> bool {
        &&& 0 <= self.bet.value
        &&& 0 <= self.committed <= pot
        &&& 0 <= self.winnings <= pot
        &&& 0 <= self.hand_rank <= u32::MAX
        &&& self.hand.len() <= 2
    }
}

/// The sum of a number taken from each seat.
pub open spec fn sum_over(seats: Seq<SeatView>, f: spec_fn(SeatView) -> int) -> int
    decreases seats.len(),
{
    if seats.len() == 0 {
        0
    } else {
        sum_over(seats.drop_last(), f) + f(seats.last())
    }
}

pub open spec fn active_flag() -> spec_fn(SeatView) -> int {
    |s: SeatView|
        if s.active() {
            1int
        } else {
            0int
        }
}

pub open spec fn playing_flag() -> spec_fn(SeatView) -> int {
    |s: SeatView|
        if s.is_playing {
            1int
        } else {
            0int
        }
}

pub open spec fn committed_of() -> spec_fn(SeatView) -> int {
    |s: SeatView| s.committed
}

pub open spec fn winnings_of() -> spec_fn(SeatView) -> int {
    |s: SeatView| s.winnings
}

/// How many seats are in the hand and not folded.
pub open spec fn count_active(seats: Seq<SeatView>) -> int {
    sum_over(seats, active_flag())
}

/// How many seats are in the hand.
pub open spec fn count_playing(seats: Seq<SeatView>) -> int {
    sum_over(seats, playing_flag())
}

/// What the seats together have put into the pot.
pub open spec fn total_committed(seats: Seq<SeatView>) -> int {
    sum_over(seats, committed_of())
}

/// What the seats together were paid.
pub open spec fn total_winnings(seats: Seq<SeatView>) -> int {
    sum_over(seats, winnings_of())
}

/// The cards that the seats hold.
pub open spec fn held_cards(seats: Seq<SeatView>) -> Multiset<Card>
    decreases seats.len(),
{
    if seats.len() == 0 {
        Multiset::empty()
    } else {
        held_cards(seats.drop_last()).add(seats.last().hand.to_multiset())
    }
}

/// The first seat from `lo` up to, not including, `hi` that is in the
/// hand and not folded.
pub open spec fn first_active_in(seats: Seq<SeatView>, lo: int, hi: int) -> Option<int>
    decreases hi - lo,
{
    if lo >= hi {
        None
    } else if seats[lo].active() {
        Some(lo)
    } else {
        first_active_in(seats, lo + 1, hi)
    }
}

/// The first seat at or after `start`, going round the table, that is in
/// the hand and not folded; seat 0 if there is none.
pub open spec fn first_active_from(seats: Seq<SeatView>, start: int) -> int {
    match first_active_in(seats, start, seats.len() as int) {
        Some(j) => j,
        None => match first_active_in(seats, 0, start) {
            Some(j) => j,
            None => 0,
        },
    }
}

pub proof fn lemma_sum_same(a: Seq<SeatView>, b: Seq<SeatView>, f: spec_fn(SeatView) -> int)
    requires
        a.len() == b.len(),
        forall|i: int| 0 <= i < a.len() ==> f(a[i]) == f(b[i]),
    ensures
        sum_over(a, f) == sum_over(b, f),
    decreases a.len(),
{
    if a.len() > 0 {
        lemma_sum_same(a.drop_last(), b.drop_last(), f);
    }
}

pub proof fn lemma_sum_update(seats: Seq<SeatView>, i: int, s: SeatView, f: spec_fn(SeatView) -> int)
    requires
        0 <= i < seats.len(),
    ensures
        sum_over(seats.update(i, s), f) == sum_over(seats, f) - f(seats[i]) + f(s),
    decreases seats.len(),
{
    let after = seats.update(i, s);
    if i == seats.len() - 1 {
        assert(after.drop_last() =~= seats.drop_last());
    } else {
        assert(after.drop_last() =~= seats.drop_last().update(i, s));
        lemma_sum_update(seats.drop_last(), i, s, f);
    }
}

pub proof fn lemma_sum_push(seats: Seq<SeatView>, s: SeatView, f: spec_fn(SeatView) -> int)
    ensures
        sum_over(seats.push(s), f) == sum_over(seats, f) + f(s),
{
    assert(seats.push(s).drop_last() =~= seats);
}

/// A sum of numbers that are each 0 or 1 lies between 0 and the number of
/// seats, and is the number of seats exactly when each is 1.
pub proof fn lemma_sum_of_flags(seats: Seq<SeatView>, f: spec_fn(SeatView) -> int)
    requires
        forall|i: int| 0 <= i < seats.len() ==> 0 <= f(#[trigger] seats[i]) <= 1,
    ensures
        0 <= sum_over(seats, f) <= seats.len(),
        (forall|i: int| 0 <= i < seats.len() ==> f(#[trigger] seats[i]) == 1) ==> sum_over(seats, f)
            == seats.len(),
        sum_over(seats, f) >= 1 ==> exists|i: int| 0 <= i < seats.len() && f(#[trigger] seats[i]) == 1,
        (forall|i: int| 0 <= i < seats.len() ==> f(#[trigger] seats[i]) == 0) ==> sum_over(seats, f)
            == 0,
        sum_over(seats, f) == 0 ==> forall|i: int|
            0 <= i < seats.len() ==> f(#[trigger] seats[i]) == 0,
    decreases seats.len(),
{
    if seats.len() > 0 {
        let front = seats.drop_last();

        assert forall|i: int| 0 <= i < front.len() implies 0 <= f(#[trigger] front[i]) <= 1 by {
            assert(front[i] == seats[i]);
        }
        lemma_sum_of_flags(front, f);
        assert(seats.last() == seats[seats.len() - 1]);
        if sum_over(seats, f) == 0 {
            assert forall|i: int| 0 <= i < seats.len() implies f(#[trigger] seats[i]) == 0 by {
                if i < front.len() {
                    assert(front[i] == seats[i]);
                }
            }
        }
        if forall|i: int| 0 <= i < seats.len() ==> f(#[trigger] seats[i]) == 1 {
            assert forall|i: int| 0 <= i < front.len() implies f(#[trigger] front[i]) == 1 by {
                assert(front[i] == seats[i]);
            }
        }
        if forall|i: int| 0 <= i < seats.len() ==> f(#[trigger] seats[i]) == 0 {
            assert forall|i: int| 0 <= i < front.len() implies f(#[trigger] front[i]) == 0 by {
                assert(front[i] == seats[i]);
            }
        }
        if sum_over(seats, f) >= 1 {
            if f(seats.last()) == 1 {
            } else {
                let i = choose|i: int| 0 <= i < front.len() && f(#[trigger] front[i]) == 1;
                assert(front[i] == seats[i]);
            }
        }
    }
}

/// What `first_active_in` finds: the first such seat of the range, or
/// that the range has none.
pub proof fn lemma_first_active_in(seats: Seq<SeatView>, lo: int, hi: int)
    requires
        0 <= lo,
        hi <= seats.len(),
    ensures
        match first_active_in(seats, lo, hi) {
            Some(j) => lo <= j < hi && seats[j].active() && forall|k: int|
                lo <= k < j ==> !(#[trigger] seats[k]).active(),
            None => forall|k: int| lo <= k < hi ==> !(#[trigger] seats[k]).active(),
        },
    decreases hi - lo,
{
    if lo < hi && !seats[lo].active() {
        lemma_first_active_in(seats, lo + 1, hi);
    }
}

/// Where some seat is in the hand and not folded, `first_active_from`
/// finds one.
pub proof fn lemma_first_active_from(seats: Seq<SeatView>, start: int)
    requires
        0 <= start <= seats.len(),
        exists|k: int| 0 <= k < seats.len() && (#[trigger] seats[k]).active(),
    ensures
        0 <= first_active_from(seats, start) < seats.len(),
        seats[first_active_from(seats, start)].active(),
{
    lemma_first_active_in(seats, start, seats.len() as int);
    lemma_first_active_in(seats, 0, start);
}

pub proof fn lemma_held_same(a: Seq<SeatView>, b: Seq<SeatView>)
    requires
        a.len() == b.len(),
        forall|i: int| 0 <= i < a.len() ==> a[i].hand == b[i].hand,
    ensures
        held_cards(a) == held_cards(b),
    decreases a.len(),
{
    if a.len() > 0 {
        lemma_held_same(a.drop_last(), b.drop_last());
    }
}

/// Seats with empty hands hold no cards.
pub proof fn lemma_held_none(seats: Seq<SeatView>)
    requires
        forall|i: int| 0 <= i < seats.len() ==> (#[trigger] seats[i]).hand.len() == 0,
    ensures
        held_cards(seats) =~= Multiset::empty(),
    decreases seats.len(),
{
    broadcast use vstd::multiset::group_multiset_axioms;

    if seats.len() > 0 {
        let front = seats.drop_last();
        assert forall|i: int| 0 <= i < front.len() implies (#[trigger] front[i]).hand.len() == 0 by {
            assert(front[i] == seats[i]);
        }
        lemma_held_none(front);
        assert(seats.last() == seats[seats.len() - 1]);
        let hand = seats.last().hand;
        assert forall|c: Card| hand.to_multiset().count(c) == 0 by {
            vstd::seq_lib::to_multiset_contains(hand, c);
        }
        assert(hand.to_multiset() =~= Multiset::empty());
    }
}

/// One more card in one seat's hand is one more card held.
pub proof fn lemma_held_gain(seats: Seq<SeatView>, i: int, s: SeatView, c: Card)
    requires
        0 <= i < seats.len(),
        s.hand == seats[i].hand.push(c),
    ensures
        held_cards(seats.update(i, s)) =~= held_cards(seats).insert(c),
    decreases seats.len(),
{
    broadcast use vstd::multiset::group_multiset_axioms;

    let after = seats.update(i, s);
    if i == seats.len() - 1 {
        assert(after.drop_last() =~= seats.drop_last());
        vstd::seq_lib::to_multiset_build(seats[i].hand, c);
    } else {
        assert(after.drop_last() =~= seats.drop_last().update(i, s));
        lemma_held_gain(seats.drop_last(), i, s, c);
    }
}

/// The cards that come off the tail of a deck when `n` are drawn, in the
/// order in which they come: the last card first.
pub open spec fn drawn(deck: Seq<Card>, n: int) -> Seq<Card> {
    Seq::new(n as nat, |i: int| deck[deck.len() - 1 - i])
}

/// The greatest strength among the seats that are in the hand and not
/// folded; 0 where there is no such seat.
pub open spec fn top_rank(seats: Seq<SeatView>) -> int
    decreases seats.len(),
{
    if seats.len() == 0 {
        0
    } else {
        let rest = top_rank(seats.drop_last());
        if seats.last().active() && seats.last().hand_rank > rest {
            seats.last().hand_rank
        } else {
            rest
        }
    }
}

/// 1 for a seat that is in the hand, not folded, and as strong as `top`.
pub open spec fn winner_flag(top: int) -> spec_fn(SeatView) -> int {
    |s: SeatView|
        if s.active() && s.hand_rank == top {
            1int
        } else {
            0int
        }
}

/// Whether seat `i` wins: no seat still in the hand is stronger.
pub open spec fn wins(seats: Seq<SeatView>, i: int) -> bool {
    seats[i].active() && seats[i].hand_rank == top_rank(seats)
}

/// How many seats win.
pub open spec fn count_winners(seats: Seq<SeatView>) -> int {
    sum_over(seats, winner_flag(top_rank(seats)))
}

/// How many seats before seat `i` win.
pub open spec fn winners_before(seats: Seq<SeatView>, i: int) -> int {
    sum_over(seats.take(i), winner_flag(top_rank(seats)))
}

/// What seat `i` is paid from the pot: nothing unless it wins; an equal
/// share of the pot if it wins; and what is left over after equal shares
/// on top, if it is the first seat that wins.
pub open spec fn payout(seats: Seq<SeatView>, pot: int, i: int) -> int {
    if wins(seats, i) {
        let share = pot / count_winners(seats);
        if winners_before(seats, i) == 0 {
            share + pot % count_winners(seats)
        } else {
            share
        }
    } else {
        0
    }
}

/// The seats after two cards each were dealt, in seat order, to the
/// seats that are in the hand.
pub open spec fn dealt_seats(seats: Seq<SeatView>, deck: Seq<Card>) -> Seq<SeatView> {
    Seq::new(
        seats.len(),
        |i: int|
            if seats[i].is_playing {
                let served = count_playing(seats.take(i));
                SeatView {
                    hand: seats[i].hand.push(deck[deck.len() - 1 - 2 * served]).push(
                        deck[deck.len() - 2 - 2 * served],
                    ),
                    ..seats[i]
                }
            } else {
                seats[i]
            },
    )
}

/// How many betting rounds lie behind a phase.
pub open spec fn rounds_done(state: GameState) -> int {
    if state.ordinal() <= 3 {
        0
    } else if state.ordinal() <= 5 {
        1
    } else if state.ordinal() <= 7 {
        2
    } else {
        3
    }
}

/// How many bets a round can have taken when it is at a stage.
pub open spec fn stage_part(stage: BettingStage) -> int {
    match stage {
        BettingStage::NOBETS => 0,
        BettingStage::BETPLACED => 1,
        BettingStage::RAISED => 2,
        BettingStage::CALLED => 3,
        BettingStage::FINISHED => 3,
    }
}

/// The most that the pot can hold in a phase and at a stage.
pub open spec fn pot_bound(state: GameState, stage: BettingStage) -> int {
    (3 * rounds_done(state) + if state.is_betting() {
        stage_part(stage)
    } else {
        0
    }) * amount_max()
}

/// A phase in which the room waits for an action; the other phases are
/// worked off by the room itself.
pub open spec fn takes_input(state: GameState) -> bool {
    state == GameState::INITIAL || state.is_betting() || state == GameState::SHOWDOWN || state
        == GameState::TERMINAL
}

/// A room as a plain value.
pub struct GameView {
    pub users: Seq<SeatView>,
    pub curr_user: int,
    pub curr_blind: int,
    pub community_cards: Seq<Card>,
    pub turn_num: int,
    pub current_state: GameState,
    pub deck: Seq<Card>,
    pub pot: int,
    pub betting_stage: BettingStage,
    pub bet_amount: int,
}

impl GameView {
    /// An empty room with a deck, before any hand.
    pub open spec fn initial(deck: Seq<Card>) -> GameView {
        GameView {
            users: Seq::empty(),
            curr_user: 0,
            curr_blind: 0,
            community_cards: Seq::empty(),
            turn_num: 0,
            current_state: GameState::INITIAL,
            deck,
            pot: 0,
            betting_stage: BettingStage::NOBETS,
            bet_amount: 0,
        }
    }

    pub open spec fn uuids(self) -> Seq<Seq<char>> {
        Seq::new(self.users.len(), |i: int| self.users[i].uuid)
    }

    /// The seat of a player.
    pub open spec fn seat_of(self, uuid: Seq<char>) -> Option<int> {
        position(self.uuids(), uuid)
    }

    /// All the cards of the room: the deck, the community cards and the
    /// hands.
    pub open spec fn cards(self) -> Multiset<Card> {
        self.deck.to_multiset().add(self.community_cards.to_multiset()).add(
            held_cards(self.users),
        )
    }

    /// No card is in the room twice.
    pub open spec fn cards_distinct(self) -> bool {
        forall|c: Card| self.cards().count(c) <= 1
    }

    /// The community cards come in steps: none before the flop, three
    /// after it, four after the turn, five after the river.
    pub open spec fn community_ok(self) -> bool {
        let n = self.community_cards.len();
        let phase = self.current_state.ordinal();
        if phase <= 4 {
            n == 0
        } else if phase <= 6 {
            n == 3
        } else if phase <= 8 {
            n == 4
        } else if phase == 9 {
            n == 5
        } else {
            n == 0 || n == 3 || n == 4 || n == 5
        }
    }

    /// Before the deal no seat holds a card; after it a seat in the hand
    /// holds two and any other seat none.
    pub open spec fn hands_ok(self) -> bool {
        forall|i: int|
            0 <= i < self.users.len() ==> (#[trigger] self.users[i]).hand.len() == (if
                self.current_state.ordinal() >= 3 && self.users[i].is_playing {
                2nat
            } else {
                0nat
            })
    }

    /// What holds of a room at every moment, also between a bet and the
    /// move of the turn that follows it.
    pub open spec fn base(self) -> bool {
        &&& self.users.len() <= MAX_SIZE
        &&& self.uuids().no_duplicates()
        &&& 0 <= self.curr_user && (self.curr_user < self.users.len() || self.curr_user == 0)
        &&& 0 <= self.curr_blind && (self.curr_blind < self.users.len() || self.curr_blind == 0)
        &&& forall|i: int|
            0 <= i < self.users.len() ==> (#[trigger] self.users[i]).wf(self.pot) && (
            self.users[i].is_room_owner <==> i == 0)
        &&& self.pot == total_committed(self.users)
        &&& 0 <= self.pot <= pot_bound(self.current_state, self.betting_stage)
        &&& 0 <= self.bet_amount <= amount_max()
        &&& 0 <= self.turn_num <= amount_max()
        &&& self.community_ok()
        &&& self.hands_ok()
        &&& self.cards_distinct()
        &&& 1 <= self.current_state.ordinal() <= 10 ==> count_active(self.users) >= 1
    }

    /// What holds of the turn: while a hand runs, at least two seats are
    /// in it, and in a betting phase the turn is with a seat that is in
    /// the hand and has not folded.
    pub open spec fn turn_ok(self) -> bool {
        &&& 1 <= self.current_state.ordinal() <= 9 ==> count_active(self.users) >= 2
        &&& self.current_state.is_betting() ==> self.curr_user < self.users.len()
            && self.users[self.curr_user].active()
    }

    /// The invariant of a room.
    pub open spec fn wf(self) -> bool {
        self.base() && self.turn_ok()
    }

    // ---- before a hand -------------------------------------------------

    /// A player sits down. The first to sit owns the room.
    pub open spec fn joined(self, uuid: Seq<char>) -> (GameView, Result<(), GameError>) {
        if self.current_state != GameState::INITIAL {
            (self, Err(GameError::WrongState))
        } else if self.seat_of(uuid).is_some() {
            (self, Err(GameError::AlreadySeated))
        } else if self.users.len() >= MAX_SIZE {
            (self, Err(GameError::RoomFull))
        } else {
            (
                GameView {
                    users: self.users.push(SeatView::fresh(uuid, self.users.len() == 0)),
                    ..self
                },
                Ok(()),
            )
        }
    }

    /// The seats after seat `i` was given up: the seats behind it move
    /// up, and whoever is first then owns the room.
    pub open spec fn seats_without(self, i: int) -> Seq<SeatView> {
        let rest = self.users.remove(i);
        if rest.len() > 0 {
            rest.update(0, SeatView { is_room_owner: true, ..rest[0] })
        } else {
            rest
        }
    }

    /// A player gives up the seat.
    pub open spec fn quitted(self, uuid: Seq<char>) -> (GameView, Result<(), GameError>) {
        if self.current_state != GameState::INITIAL {
            (self, Err(GameError::WrongState))
        } else {
            match self.seat_of(uuid) {
                None => (self, Err(GameError::NotSeated)),
                Some(i) => (
                    GameView { users: self.seats_without(i), curr_user: 0, curr_blind: 0, ..self },
                    Ok(()),
                ),
            }
        }
    }

    /// The owner starts a hand: every seat is in it, with nothing bet.
    pub open spec fn started(self, uuid: Seq<char>) -> (GameView, Result<(), GameError>) {
        if self.current_state != GameState::INITIAL {
            (self, Err(GameError::WrongState))
        } else if self.seat_of(uuid) != Some(0int) {
            (self, Err(GameError::NotOwner))
        } else if self.users.len() < 2 {
            (self, Err(GameError::NotEnoughPlayers))
        } else {
            (
                GameView {
                    users: Seq::new(self.users.len(), |i: int| self.users[i].entered()),
                    turn_num: if self.turn_num < amount_max() {
                        self.turn_num + 1
                    } else {
                        self.turn_num
                    },
                    current_state: GameState::BLIND,
                    ..self
                },
                Ok(()),
            )
        }
    }

    pub open spec fn connected(self, action_type: ConnectionActionType, uuid: Seq<char>) -> (
        GameView,
        Result<(), GameError>,
    ) {
        match action_type {
            ConnectionActionType::JOIN => self.joined(uuid),
            ConnectionActionType::QUIT => self.quitted(uuid),
            ConnectionActionType::START => self.started(uuid),
        }
    }

    // ---- what the room does by itself ----------------------------------

    /// The room as a betting round opens: nobody has bet, folds stand,
    /// and the turn is with the first seat from the blind on that is
    /// still in the hand.
    pub open spec fn round_opened(self) -> GameView {
        GameView {
            users: Seq::new(self.users.len(), |i: int| self.users[i].cleared()),
            curr_user: first_active_from(self.users, self.curr_blind),
            betting_stage: BettingStage::NOBETS,
            bet_amount: 0,
            ..self
        }
    }

    /// The blind goes to the seat that had it, or to the next seat that
    /// is in the hand.
    pub open spec fn blinds_set(self) -> (GameView, Result<(), GameError>) {
        if self.current_state != GameState::BLIND {
            (self, Err(GameError::WrongState))
        } else {
            (
                GameView {
                    curr_blind: first_active_from(self.users, self.curr_blind),
                    current_state: GameState::DEAL,
                    ..self
                },
                Ok(()),
            )
        }
    }

    /// The room after two cards went from the tail of the deck to each
    /// seat in the hand, in the first betting phase.
    pub open spec fn hands_dealt(self) -> GameView {
        GameView {
            users: dealt_seats(self.users, self.deck),
            deck: self.deck.take(self.deck.len() - 2 * count_playing(self.users)),
            current_state: GameState::FLOPBETTING,
            ..self
        }
    }

    /// Two cards go from the tail of the deck to each seat in the hand,
    /// and the first betting round opens. Fails, with nothing dealt,
    /// where the deck is too short.
    pub open spec fn dealt(self) -> (GameView, Result<(), GameError>) {
        if self.current_state != GameState::DEAL {
            (self, Err(GameError::WrongState))
        } else if self.deck.len() < 2 * count_playing(self.users) {
            (self, Err(GameError::DeckExhausted))
        } else {
            (self.hands_dealt().round_opened(), Ok(()))
        }
    }

    /// How many community cards a phase reveals.
    pub open spec fn reveal_count(state: GameState) -> int {
        if state == GameState::FLOP {
            3
        } else {
            1
        }
    }

    /// The room after the community cards of its phase came off the tail
    /// of the deck, in the phase that follows.
    pub open spec fn community_dealt(self) -> GameView {
        let n = GameView::reveal_count(self.current_state);
        GameView {
            community_cards: self.community_cards + drawn(self.deck, n),
            deck: self.deck.take(self.deck.len() - n),
            current_state: self.current_state.successor(),
            ..self
        }
    }

    /// Community cards come off the tail of the deck: three on the flop,
    /// one on the turn, one on the river. After the flop and the turn the
    /// next betting round opens. Fails, with nothing revealed, where the
    /// deck is too short.
    pub open spec fn revealed(self) -> (GameView, Result<(), GameError>) {
        let state = self.current_state;
        let n = GameView::reveal_count(state);
        if !(state == GameState::FLOP || state == GameState::TURN || state == GameState::RIVER) {
            (self, Err(GameError::WrongState))
        } else if self.deck.len() < n {
            (self, Err(GameError::DeckExhausted))
        } else {
            if state == GameState::RIVER {
                (self.community_dealt(), Ok(()))
            } else {
                (self.community_dealt().round_opened(), Ok(()))
            }
        }
    }

    /// The comparator's strengths are put down, one for each seat.
    pub open spec fn ranked(self, ranks: Seq<u32>) -> (GameView, Result<(), GameError>) {
        if self.current_state != GameState::SHOWDOWN {
            (self, Err(GameError::WrongState))
        } else if ranks.len() != self.users.len() {
            (self, Err(GameError::BadRanking))
        } else {
            (
                GameView {
                    users: Seq::new(
                        self.users.len(),
                        |i: int| SeatView { hand_rank: ranks[i] as int, ..self.users[i] },
                    ),
                    current_state: GameState::POTDISTRIBUTION,
                    ..self
                },
                Ok(()),
            )
        }
    }

    /// The pot is paid out to the seats that win, and the hand is over.
    pub open spec fn paid(self) -> (GameView, Result<(), GameError>) {
        if self.current_state != GameState::POTDISTRIBUTION {
            (self, Err(GameError::WrongState))
        } else {
            (
                GameView {
                    users: Seq::new(
                        self.users.len(),
                        |i: int|
                            SeatView {
                                winnings: payout(self.users, self.pot, i),
                                ..self.users[i]
                            },
                    ),
                    current_state: GameState::TERMINAL,
                    ..self
                },
                Ok(()),
            )
        }
    }

    /// The room after a hand was called off: the seats stay, everything
    /// of the hand is wiped, and a new deck waits for the next start.
    pub open spec fn voided(self, deck: Seq<Card>) -> GameView {
        GameView {
            users: Seq::new(self.users.len(), |i: int| self.users[i].vacated()),
            curr_user: 0,
            curr_blind: 0,
            community_cards: Seq::empty(),
            turn_num: self.turn_num,
            current_state: GameState::INITIAL,
            deck,
            pot: 0,
            betting_stage: BettingStage::NOBETS,
            bet_amount: 0,
        }
    }

    // ---- betting -------------------------------------------------------

    /// The room with a bet put down for the seat whose turn it is, and
    /// `amount` moved into the pot.
    pub open spec fn recorded(self, bet: Bet, amount: int) -> GameView {
        GameView {
            users: self.users.update(
                self.curr_user,
                self.users[self.curr_user].with_bet(bet, amount),
            ),
            pot: self.pot + amount,
            ..self
        }
    }

    /// The room with other seats.
    pub open spec fn with_seats(self, seats: Seq<SeatView>) -> GameView {
        GameView { users: seats, ..self }
    }

    /// The room after `n` cards were taken off the tail of the deck.
    pub open spec fn without_top(self, n: int) -> GameView {
        GameView { deck: self.deck.take(self.deck.len() - n), ..self }
    }

    /// The room with another deck.
    pub open spec fn with_deck(self, deck: Seq<Card>) -> GameView {
        GameView { deck, ..self }
    }

    /// The room with the betting at a stage and a bet on the table.
    pub open spec fn at_stage(self, stage: BettingStage, bet_amount: int) -> GameView {
        GameView { betting_stage: stage, bet_amount, ..self }
    }

    /// A check: allowed while nobody has bet.
    pub open spec fn checked(self) -> (GameView, Result<(), GameError>) {
        if !self.current_state.is_betting() {
            (self, Err(GameError::WrongState))
        } else if self.betting_stage != BettingStage::NOBETS {
            (self, Err(GameError::BetAlreadyPlaced))
        } else {
            (self.recorded(Bet { bet_type: BetType::CHECK, value: 0 }, 0), Ok(()))
        }
    }

    /// A bet: allowed while nobody has bet. The amount goes into the pot
    /// and is the bet on the table.
    pub open spec fn bet_placed(self, value: int) -> (GameView, Result<(), GameError>) {
        if !self.current_state.is_betting() {
            (self, Err(GameError::WrongState))
        } else if self.betting_stage != BettingStage::NOBETS {
            (self, Err(GameError::BetAlreadyPlaced))
        } else if value < 0 {
            (self, Err(GameError::InvalidAmount))
        } else {
            (
                self.recorded(Bet { bet_type: BetType::BET, value: value as i32 }, value).at_stage(
                    BettingStage::BETPLACED,
                    value,
                ),
                Ok(()),
            )
        }
    }

    /// A raise: allowed on a bet that nobody has raised, for more than
    /// twice that bet. The amount goes into the pot and on top of the bet
    /// on the table.
    pub open spec fn raised(self, value: int) -> (GameView, Result<(), GameError>) {
        if !self.current_state.is_betting() {
            (self, Err(GameError::WrongState))
        } else if self.betting_stage != BettingStage::BETPLACED {
            (self, Err(GameError::NoBetToRaise))
        } else if value <= 2 * self.bet_amount {
            (self, Err(GameError::RaiseTooSmall))
        } else if self.bet_amount + value > amount_max() {
            (self, Err(GameError::InvalidAmount))
        } else {
            (
                self.recorded(Bet { bet_type: BetType::RAISE, value: value as i32 }, value).at_stage(
                    BettingStage::RAISED,
                    self.bet_amount + value,
                ),
                Ok(()),
            )
        }
    }

    /// A call: allowed on a raise that nobody has called. The bet on the
    /// table goes into the pot.
    pub open spec fn called(self) -> (GameView, Result<(), GameError>) {
        if !self.current_state.is_betting() {
            (self, Err(GameError::WrongState))
        } else if self.betting_stage != BettingStage::RAISED {
            (self, Err(GameError::NothingToCall))
        } else {
            (
                self.recorded(
                    Bet { bet_type: BetType::CALL, value: self.bet_amount as i32 },
                    self.bet_amount,
                ).at_stage(BettingStage::CALLED, self.bet_amount),
                Ok(()),
            )
        }
    }

    /// A fold: allowed at any stage, and the stage stays.
    pub open spec fn folded(self) -> (GameView, Result<(), GameError>) {
        if !self.current_state.is_betting() {
            (self, Err(GameError::WrongState))
        } else {
            (self.recorded(Bet { bet_type: BetType::FOLD, value: 0 }, 0), Ok(()))
        }
    }

    /// What a bet does for the seat whose turn it is, before the turn
    /// moves on.
    pub open spec fn acted(self, bet: Bet) -> (GameView, Result<(), GameError>) {
        match bet.bet_type {
            BetType::CHECK => self.checked(),
            BetType::BET => self.bet_placed(bet.value as int),
            BetType::CALL => self.called(),
            BetType::RAISE => self.raised(bet.value as int),
            BetType::FOLD => self.folded(),
            BetType::ALLIN => (self, Err(GameError::Unsupported)),
            BetType::NONE => (self, Err(GameError::Unsupported)),
        }
    }

    /// The betting round is over: every seat that is still in the hand
    /// has answered the betting as it stands.
    pub open spec fn all_settled(self) -> bool {
        forall|i: int|
            0 <= i < self.users.len() && (#[trigger] self.users[i]).active()
                ==> self.users[i].settled(self.betting_stage)
    }

    /// The seat after the one whose turn it is, going round the table,
    /// that is still in the hand.
    pub open spec fn next_seat(self) -> int {
        first_active_from(self.users, self.curr_user + 1)
    }

    /// The room after a bet was taken. Where one seat is left in the
    /// hand, the hand is over and the pot is due. Where the round is
    /// over, the phase moves on. Otherwise the turn moves on.
    pub open spec fn turn_passed(self) -> GameView {
        if count_active(self.users) == 1 {
            GameView { current_state: GameState::POTDISTRIBUTION, ..self }
        } else if self.all_settled() {
            GameView { current_state: self.current_state.successor(), ..self }
        } else {
            GameView { curr_user: self.next_seat(), ..self }
        }
    }

    /// A bet of a player in a betting phase.
    pub open spec fn bet_step(self, uuid: Seq<char>, bet: Bet, state: GameState) -> (
        GameView,
        Result<(), GameError>,
    ) {
        if self.current_state != state || !state.is_betting() {
            (self, Err(GameError::WrongState))
        } else {
            match self.seat_of(uuid) {
                None => (self, Err(GameError::NotPlaying)),
                Some(i) => if i != self.curr_user {
                    (self, Err(GameError::NotYourTurn))
                } else if self.users[i].bet.bet_type == BetType::FOLD {
                    (self, Err(GameError::AlreadyFolded))
                } else if !self.users[i].is_playing {
                    (self, Err(GameError::NotPlaying))
                } else {
                    let (after, res) = self.acted(bet);
                    if res.is_ok() {
                        (after.turn_passed(), res)
                    } else {
                        (self, res)
                    }
                },
            }
        }
    }

    /// The room with seat `i` folded and nothing else touched.
    pub open spec fn folded_at(self, i: int) -> GameView {
        GameView {
            users: self.users.update(
                i,
                self.users[i].with_bet(Bet { bet_type: BetType::FOLD, value: 0 }, 0),
            ),
            ..self
        }
    }

    /// A player leaves in a betting phase. The seat stays at the table,
    /// with what it has put into the pot, and is folded: the room does not
    /// wait for it any more. Where the turn was with that seat, or its
    /// fold ends the round or the hand, the turn moves on as after a fold.
    /// A seat that is out of the hand already stays as it is.
    pub open spec fn left_hand(self, uuid: Seq<char>) -> (GameView, Result<(), GameError>) {
        if !self.current_state.is_betting() {
            (self, Err(GameError::WrongState))
        } else {
            match self.seat_of(uuid) {
                None => (self, Err(GameError::NotSeated)),
                Some(i) => if !self.users[i].active() {
                    (self, Ok(()))
                } else if i == self.curr_user || count_active(self.folded_at(i).users) == 1
                    || self.folded_at(i).all_settled() {
                    (self.folded_at(i).turn_passed(), Ok(()))
                } else {
                    (self.folded_at(i), Ok(()))
                },
            }
        }
    }

    // ---- one action ----------------------------------------------------

    /// What an action does in the phase that the room is in. A phase that
    /// waits for an action takes the actions made for it and refuses the
    /// others; a betting phase also lets a player leave. A phase that the room works off by itself leaves the action
    /// aside and does its own step. After the last phase nothing happens.
    pub open spec fn input_step(self, action: ActionView) -> (GameView, Result<(), GameError>) {
        if self.current_state == GameState::INITIAL {
            match action {
                ActionView::Connection { action_type, uuid } => self.connected(action_type, uuid),
                _ => (self, Err(GameError::WrongState)),
            }
        } else if self.current_state.is_betting() {
            match action {
                ActionView::Bet { uuid, bet } => self.bet_step(uuid, bet, self.current_state),
                ActionView::Connection { action_type, uuid } => if action_type
                    == ConnectionActionType::QUIT {
                    self.left_hand(uuid)
                } else {
                    (self, Err(GameError::WrongState))
                },
                _ => (self, Err(GameError::WrongState)),
            }
        } else if self.current_state == GameState::SHOWDOWN {
            match action {
                ActionView::Ranking { ranks } => self.ranked(ranks),
                _ => (self, Err(GameError::WrongState)),
            }
        } else {
            self.system_step()
        }
    }

    /// The room after the blind and the deal, the two phases that are
    /// worked off as soon as a hand is started; or the room as it was when
    /// the deal failed, with the failure. A room in another phase stays as
    /// it is.
    pub open spec fn opened(self) -> (GameView, Result<(), GameError>) {
        let first = if self.current_state == GameState::BLIND {
            self.blinds_set().0
        } else {
            self
        };
        if first.current_state == GameState::DEAL {
            if first.dealt().1.is_ok() {
                first.dealt()
            } else {
                (first, first.dealt().1)
            }
        } else {
            (first, Ok(()))
        }
    }

    /// What holds of the room and the result once a step is done, where
    /// `step` is what the step comes to: the room is where the step leads;
    /// or the step was refused and the room is as it was; or the deck ran
    /// out, and the hand was called off with a newly shuffled deck.
    pub open spec fn ends_in(
        step: (GameView, Result<(), GameError>),
        after: GameView,
        res: Result<(), GameError>,
    ) -> bool {
        match step {
            (goal, Ok(())) => res.is_ok() && after == goal,
            (failed, Err(e)) => res == Err::<(), GameError>(e) && if e
                == GameError::DeckExhausted {
                is_permutation(after.deck, full_deck()) && after == failed.voided(after.deck)
            } else {
                after == failed
            },
        }
    }

    /// One step of a phase that the room works off by itself.
    pub open spec fn system_step(self) -> (GameView, Result<(), GameError>) {
        match self.current_state {
            GameState::BLIND => self.blinds_set(),
            GameState::DEAL => self.dealt(),
            GameState::FLOP => self.revealed(),
            GameState::TURN => self.revealed(),
            GameState::RIVER => self.revealed(),
            GameState::POTDISTRIBUTION => self.paid(),
            _ => (self, Ok(())),
        }
    }

    /// The room after it worked off every phase that needs no action, or
    /// the room as it was when a step failed, with the failure.
    pub open spec fn settled(self) -> (GameView, Result<(), GameError>)
        decreases 12 - self.current_state.ordinal(),
    {
        if takes_input(self.current_state) {
            (self, Ok(()))
        } else {
            let (after, res) = self.system_step();
            if res.is_ok() && after.current_state.ordinal() > self.current_state.ordinal() {
                after.settled()
            } else {
                (self, res)
            }
        }
    }

    /// Within a hand nothing is taken back: the pot has not shrunk, the
    /// community cards that lay on the table still lie there first, and
    /// the phase has not gone back.
    pub open spec fn grows_to(self, after: GameView) -> bool {
        &&& after.pot >= self.pot
        &&& after.community_cards.len() >= self.community_cards.len()
        &&& after.community_cards.take(self.community_cards.len() as int) == self.community_cards
        &&& after.current_state.ordinal() >= self.current_state.ordinal()
    }

    /// What holds once the room has worked off the phases that need no
    /// action: it is in the phase where it stopped; or a draw failed, and
    /// the hand was called off with a newly shuffled deck.
    pub open spec fn settles_to(self, after: GameView, res: Result<(), GameError>) -> bool {
        GameView::ends_in(self.settled(), after, res)
    }

    /// What one action does to the room: the action is taken as the phase
    /// has it, and where that starts a hand, the blind and the deal follow
    /// at once. A refused action leaves the room as it was. A bet that
    /// ends a betting round leaves the room in the phase that follows the
    /// round, with nothing revealed yet.
    pub open spec fn run(self, action: ActionView) -> (GameView, Result<(), GameError>) {
        let (after, res) = self.input_step(action);
        if res.is_ok() {
            after.opened()
        } else {
            (self, res)
        }
    }

    /// What one action does to the room as the room's task takes it: the
    /// action, and then every phase that needs no action, up to the next
    /// phase that waits for one.
    pub open spec fn stepped(self, action: ActionView) -> (GameView, Result<(), GameError>) {
        if self.run(action).1.is_ok() {
            self.run(action).0.settled()
        } else {
            self.run(action)
        }
    }

    /// What holds after one action.
    pub open spec fn ran(self, action: ActionView, after: GameView, res: Result<(), GameError>)
        -> bool {
        GameView::ends_in(self.run(action), after, res)
    }
}

/// A room that holds the same cards as a room without a card twice
/// holds no card twice.
pub proof fn lemma_same_cards(v: GameView, w: GameView)
    requires
        v.cards_distinct(),
        w.cards() == v.cards(),
    ensures
        w.cards_distinct(),
{
    assert forall|c: Card| w.cards().count(c) <= 1 by {
        assert(v.cards().count(c) <= 1);
    }
}

/// The seat `b` is the seat `a` after a step that leaves its cards and
/// its ownership alone, adds at most `gain` to what it has put in, and
/// keeps what else it changes within bounds. `dealt` says whether hands
/// have been dealt, in which case the seat also stays in or out of the
/// hand.
pub open spec fn seat_kept(a: SeatView, b: SeatView, gain: int, pot: int, dealt: bool) -> bool {
    &&& b.hand == a.hand
    &&& b.is_room_owner == a.is_room_owner
    &&& dealt ==> b.is_playing == a.is_playing
    &&& a.committed <= b.committed <= a.committed + gain
    &&& b.bet.value == a.bet.value || 0 <= b.bet.value
    &&& b.winnings == a.winnings || 0 <= b.winnings <= pot
    &&& b.hand_rank == a.hand_rank || 0 <= b.hand_rank <= u32::MAX
}

/// Seats that a step keeps in that way stay well formed, and hold the
/// cards that the phase asks for.
pub proof fn lemma_seats_kept(v: GameView, w: GameView)
    requires
        v.base(),
        w.users.len() == v.users.len(),
        v.pot <= w.pot,
        (w.current_state.ordinal() >= 3) == (v.current_state.ordinal() >= 3),
        forall|i: int|
            0 <= i < w.users.len() ==> seat_kept(
                v.users[i],
                #[trigger] w.users[i],
                w.pot - v.pot,
                w.pot,
                w.current_state.ordinal() >= 3,
            ),
    ensures
        forall|i: int|
            0 <= i < w.users.len() ==> (#[trigger] w.users[i]).wf(w.pot) && (
            w.users[i].is_room_owner <==> i == 0),
        w.hands_ok(),
{
    assert forall|i: int| 0 <= i < w.users.len() implies (#[trigger] w.users[i]).wf(w.pot) && (
    w.users[i].is_room_owner <==> i == 0) && w.users[i].hand.len() == (if w.current_state.ordinal()
        >= 3 && w.users[i].is_playing {
        2nat
    } else {
        0nat
    }) by {
        assert(seat_kept(
            v.users[i],
            w.users[i],
            w.pot - v.pot,
            w.pot,
            w.current_state.ordinal() >= 3,
        ));
        assert(v.users[i].wf(v.pot));
    }
}

/// Putting a bet down for the seat whose turn it is keeps what holds of
/// a room at every moment, as long as the pot stays within what the new
/// stage allows. The seats in the hand stay the same but for a fold.
pub proof fn lemma_recorded(
    v: GameView,
    bet: Bet,
    amount: int,
    stage: BettingStage,
    bet_amount: int,
)
    requires
        v.wf(),
        v.current_state.is_betting(),
        0 <= amount <= amount_max(),
        0 <= bet.value,
        0 <= bet_amount <= amount_max(),
        v.pot + amount <= pot_bound(v.current_state, stage),
    ensures
        v.recorded(bet, amount).at_stage(stage, bet_amount).base(),
        bet.bet_type != BetType::FOLD ==> count_active(v.recorded(bet, amount).users)
            == count_active(v.users),
        bet.bet_type == BetType::FOLD ==> count_active(v.recorded(bet, amount).users)
            == count_active(v.users) - 1,
        v.recorded(bet, amount).pot == v.pot + amount,
{
    let w = v.recorded(bet, amount);
    let seat = v.users[v.curr_user].with_bet(bet, amount);
    assert(w.uuids() =~= v.uuids());
    lemma_sum_update(v.users, v.curr_user, seat, committed_of());
    lemma_sum_update(v.users, v.curr_user, seat, active_flag());
    lemma_held_same(v.users, w.users);
    lemma_same_cards(v, w.at_stage(stage, bet_amount));
    lemma_seats_kept(v, w);
}

/// Folding a seat that is still in the hand keeps what holds of a room
/// at every moment, and leaves one seat fewer in the hand.
pub proof fn lemma_folded_at(v: GameView, i: int)
    requires
        v.wf(),
        v.current_state.is_betting(),
        0 <= i < v.users.len(),
        v.users[i].active(),
    ensures
        v.folded_at(i).base(),
        count_active(v.folded_at(i).users) == count_active(v.users) - 1,
{
    let w = v.folded_at(i);
    let seat = v.users[i].with_bet(Bet { bet_type: BetType::FOLD, value: 0 }, 0);
    assert(w.uuids() =~= v.uuids());
    lemma_sum_update(v.users, i, seat, committed_of());
    lemma_sum_update(v.users, i, seat, active_flag());
    lemma_held_same(v.users, w.users);
    lemma_same_cards(v, w);
    lemma_seats_kept(v, w);
}

/// A player's leaving in a betting phase leaves the room well formed,
/// with the pot as it was; the seat that was left is out of the hand.
pub proof fn lemma_left_hand(v: GameView, uuid: Seq<char>)
    requires
        v.wf(),
    ensures
        v.left_hand(uuid).0.wf(),
        v.left_hand(uuid).0.pot == v.pot,
        v.left_hand(uuid).0.deck == v.deck,
        v.left_hand(uuid).0.community_cards == v.community_cards,
        v.left_hand(uuid).0.current_state.ordinal() >= v.current_state.ordinal(),
        v.left_hand(uuid).1.is_err() ==> v.left_hand(uuid).0 == v,
        v.left_hand(uuid).1.is_ok() ==> !v.left_hand(uuid).0.users[v.seat_of(uuid).unwrap()].active(),
{
    if v.current_state.is_betting() {
        lemma_position(v.uuids(), uuid);
        match v.seat_of(uuid) {
            None => {},
            Some(i) => {
                if v.users[i].active() {
                    lemma_folded_at(v, i);
                    let w = v.folded_at(i);
                    if i == v.curr_user || count_active(w.users) == 1 || w.all_settled() {
                        lemma_turn_passed(w);
                    } else {
                        assert(w.users[w.curr_user] == v.users[v.curr_user]);
                    }
                }
            },
        }
    }
}

/// After a bet was put down, moving the turn on gives a room that is
/// well formed again.
pub proof fn lemma_turn_passed(v: GameView)
    requires
        v.base(),
        v.current_state.is_betting(),
        0 <= v.curr_user < v.users.len(),
    ensures
        v.turn_passed().wf(),
        v.turn_passed().pot == v.pot,
{
    let w = v.turn_passed();
    lemma_sum_of_flags(v.users, active_flag());
    lemma_same_cards(v, w);
    if count_active(v.users) == 1 {
    } else if v.all_settled() {
    } else {
        let k = choose|k: int| 0 <= k < v.users.len() && active_flag()(#[trigger] v.users[k]) == 1;
        assert(v.users[k].active());
        lemma_first_active_from(v.users, v.curr_user + 1);
    }
}

/// A bet, taken or refused, leaves the room well formed; the pot does not
/// shrink and is what the seats have put in.
pub proof fn lemma_bet_step(v: GameView, uuid: Seq<char>, bet: Bet, state: GameState)
    requires
        v.wf(),
    ensures
        v.bet_step(uuid, bet, state).0.wf(),
        v.bet_step(uuid, bet, state).0.pot >= v.pot,
        v.bet_step(uuid, bet, state).0.pot == total_committed(v.bet_step(uuid, bet, state).0.users),
        v.bet_step(uuid, bet, state).1.is_err() ==> v.bet_step(uuid, bet, state).0 == v,
{
    let (after, res) = v.bet_step(uuid, bet, state);
    if res.is_ok() {
        let (mid, r) = v.acted(bet);
        lemma_acted(v, bet);
        lemma_turn_passed(mid);
    }
}

/// What a bet does to the room before the turn moves on: an accepted bet
/// keeps what holds at every moment, leaves at least one seat in the
/// hand and never takes from the pot; a refused bet changes nothing.
pub proof fn lemma_acted(v: GameView, bet: Bet)
    requires
        v.wf(),
        v.current_state.is_betting(),
    ensures
        v.acted(bet).1.is_ok() ==> v.acted(bet).0.base() && v.acted(bet).0.current_state
            == v.current_state && v.acted(bet).0.curr_user == v.curr_user && v.acted(bet).0.users.len()
            == v.users.len() && v.acted(bet).0.pot >= v.pot,
        v.acted(bet).1.is_err() ==> v.acted(bet).0 == v,
{
    let state = v.current_state;
    match bet.bet_type {
        BetType::CHECK => {
            if v.betting_stage == BettingStage::NOBETS {
                lemma_recorded(
                    v,
                    Bet { bet_type: BetType::CHECK, value: 0 },
                    0,
                    v.betting_stage,
                    v.bet_amount,
                );
            }
        },
        BetType::BET => {
            let value = bet.value as int;
            if v.betting_stage == BettingStage::NOBETS && value >= 0 {
                lemma_recorded(
                    v,
                    Bet { bet_type: BetType::BET, value: value as i32 },
                    value,
                    BettingStage::BETPLACED,
                    value,
                );
            }
        },
        BetType::CALL => {
            if v.betting_stage == BettingStage::RAISED {
                lemma_recorded(
                    v,
                    Bet { bet_type: BetType::CALL, value: v.bet_amount as i32 },
                    v.bet_amount,
                    BettingStage::CALLED,
                    v.bet_amount,
                );
            }
        },
        BetType::RAISE => {
            let value = bet.value as int;
            if v.betting_stage == BettingStage::BETPLACED && value > 2 * v.bet_amount
                && v.bet_amount + value <= amount_max() {
                lemma_recorded(
                    v,
                    Bet { bet_type: BetType::RAISE, value: value as i32 },
                    value,
                    BettingStage::RAISED,
                    v.bet_amount + value,
                );
            }
        },
        BetType::FOLD => {
            lemma_recorded(
                v,
                Bet { bet_type: BetType::FOLD, value: 0 },
                0,
                v.betting_stage,
                v.bet_amount,
            );
        },
        BetType::ALLIN => {},
        BetType::NONE => {},
    }
}

/// Where the count of seats still in the hand is at least one, some seat
/// is still in the hand.
pub proof fn lemma_some_active(seats: Seq<SeatView>)
    requires
        count_active(seats) >= 1,
    ensures
        exists|k: int| 0 <= k < seats.len() && (#[trigger] seats[k]).active(),
{
    lemma_sum_of_flags(seats, active_flag());
    let k = choose|k: int| 0 <= k < seats.len() && active_flag()(#[trigger] seats[k]) == 1;
    assert(seats[k].active());
}

/// Before the deal the room holds no cards but the deck's, whoever sits.
pub proof fn lemma_cards_before_deal(v: GameView, seats: Seq<SeatView>)
    requires
        v.cards_distinct(),
        forall|i: int| 0 <= i < v.users.len() ==> (#[trigger] v.users[i]).hand.len() == 0,
        forall|i: int| 0 <= i < seats.len() ==> (#[trigger] seats[i]).hand.len() == 0,
    ensures
        v.with_seats(seats).cards_distinct(),
        held_cards(seats) == held_cards(v.users),
{
    lemma_held_none(v.users);
    lemma_held_none(seats);
    let w = v.with_seats(seats);
    lemma_same_cards(v, w);
}

/// Before a hand nothing is in the pot, so no seat has put anything in.
pub proof fn lemma_nothing_committed(seats: Seq<SeatView>)
    requires
        forall|i: int| 0 <= i < seats.len() ==> (#[trigger] seats[i]).committed == 0,
    ensures
        total_committed(seats) == 0,
    decreases seats.len(),
{
    if seats.len() > 0 {
        let front = seats.drop_last();
        assert forall|i: int| 0 <= i < front.len() implies (#[trigger] front[i]).committed == 0 by {
            assert(front[i] == seats[i]);
        }
        lemma_nothing_committed(front);
        assert(seats.last() == seats[seats.len() - 1]);
    }
}

/// Sitting down keeps the room well formed. A player who sits down in an
/// empty room has seat 0 and owns the room.
pub proof fn lemma_joined(v: GameView, uuid: Seq<char>)
    requires
        v.wf(),
    ensures
        v.joined(uuid).0.wf(),
        v.joined(uuid).1.is_err() ==> v.joined(uuid).0 == v,
        v.joined(uuid).1.is_ok() ==> v.joined(uuid).0.seat_of(uuid) == Some(v.users.len() as int)
            && v.joined(uuid).0.users[v.users.len() as int] == SeatView::fresh(
            uuid,
            v.users.len() == 0,
        ),
{
    let (w, res) = v.joined(uuid);
    if res.is_ok() {
        let seat = SeatView::fresh(uuid, v.users.len() == 0);
        lemma_position(v.uuids(), uuid);
        assert(w.uuids() =~= v.uuids().push(uuid));
        assert(is_first_at(w.uuids(), uuid, v.users.len() as int));
        lemma_position_found(w.uuids(), uuid, v.users.len() as int);
        lemma_sum_push(v.users, seat, committed_of());
        assert forall|i: int| 0 <= i < v.users.len() implies (#[trigger] v.users[i]).hand.len()
            == 0 by {}
        assert forall|i: int| 0 <= i < w.users.len() implies (#[trigger] w.users[i]).hand.len()
            == 0 by {
            if i < v.users.len() {
                assert(w.users[i] == v.users[i]);
            }
        }
        lemma_cards_before_deal(v, w.users);
        assert forall|i: int| 0 <= i < w.users.len() implies (#[trigger] w.users[i]).wf(w.pot) && (
        w.users[i].is_room_owner <==> i == 0) by {
            if i < v.users.len() {
                assert(v.users[i].wf(v.pot));
            }
        }
    }
}

/// Giving up a seat keeps the room well formed.
pub proof fn lemma_quitted(v: GameView, uuid: Seq<char>)
    requires
        v.wf(),
    ensures
        v.quitted(uuid).0.wf(),
        v.quitted(uuid).1.is_err() ==> v.quitted(uuid).0 == v,
        v.quitted(uuid).1.is_ok() ==> v.quitted(uuid).0.seat_of(uuid).is_none(),
{
    let (w, res) = v.quitted(uuid);
    if res.is_ok() {
        lemma_position(v.uuids(), uuid);
        let i = v.seat_of(uuid).unwrap();
        assert(w.uuids() =~= v.uuids().remove(i));
        lemma_remove_keeps_distinct(v.uuids(), i);
        assert forall|k: int| 0 <= k < w.uuids().len() implies w.uuids()[k] != uuid by {
            assert(v.uuids().remove(i).contains(w.uuids()[k]));
        }
        lemma_position_absent(w.uuids(), uuid);
        assert forall|k: int| 0 <= k < v.users.len() implies (#[trigger] v.users[k]).hand.len()
            == 0 by {}
        assert forall|k: int| 0 <= k < w.users.len() implies (#[trigger] w.users[k]).hand.len() == 0
            && w.users[k].committed == 0 && w.users[k].wf(w.pot) && (w.users[k].is_room_owner <==> k
            == 0) by {
            let from = if k < i {
                k
            } else {
                k + 1
            };
            assert(v.users[from].wf(v.pot));
            assert(v.users[from].hand.len() == 0);
        }
        lemma_cards_before_deal(v, w.users);
        lemma_nothing_committed(w.users);
        let mid = v.with_seats(w.users);
        lemma_same_cards(mid, w);
    }
}

/// Starting a hand keeps the room well formed: every seat is in the hand.
pub proof fn lemma_started(v: GameView, uuid: Seq<char>)
    requires
        v.wf(),
    ensures
        v.started(uuid).0.wf(),
        v.started(uuid).1.is_err() ==> v.started(uuid).0 == v,
        v.started(uuid).1.is_ok() ==> count_active(v.started(uuid).0.users) == v.users.len(),
{
    let (w, res) = v.started(uuid);
    if res.is_ok() {
        assert(w.uuids() =~= v.uuids());
        lemma_sum_same(v.users, w.users, committed_of());
        assert forall|i: int| 0 <= i < w.users.len() implies active_flag()(#[trigger] w.users[i])
            == 1 by {}
        lemma_sum_of_flags(w.users, active_flag());
        assert forall|i: int| 0 <= i < v.users.len() implies (#[trigger] v.users[i]).hand.len()
            == 0 by {}
        assert forall|i: int| 0 <= i < w.users.len() implies (#[trigger] w.users[i]).hand.len()
            == 0 by {
            assert(v.users[i].hand.len() == 0);
        }
        lemma_cards_before_deal(v, w.users);
        let mid = v.with_seats(w.users);
        lemma_same_cards(mid, w);
        lemma_seats_kept(v, w);
    }
}

/// Setting the blind keeps the room well formed.
pub proof fn lemma_blinds_set(v: GameView)
    requires
        v.wf(),
    ensures
        v.blinds_set().0.wf(),
        v.blinds_set().1.is_err() ==> v.blinds_set().0 == v,
{
    let (w, res) = v.blinds_set();
    if res.is_ok() {
        lemma_some_active(v.users);
        lemma_first_active_from(v.users, v.curr_blind);
        lemma_same_cards(v, w);
    }
}

/// Opening a betting round gives a well formed room, where the phase
/// takes bets, two seats are still in the hand, and the pot is no more
/// than the rounds before can have filled it with.
pub proof fn lemma_round_opened(v: GameView)
    requires
        v.base(),
        v.current_state.is_betting(),
        count_active(v.users) >= 2,
        v.pot <= pot_bound(v.current_state, BettingStage::NOBETS),
    ensures
        v.round_opened().wf(),
        v.round_opened().pot == v.pot,
{
    let w = v.round_opened();
    assert(w.uuids() =~= v.uuids());
    lemma_sum_same(v.users, w.users, committed_of());
    lemma_sum_same(v.users, w.users, active_flag());
    lemma_held_same(v.users, w.users);
    lemma_some_active(v.users);
    lemma_first_active_from(v.users, v.curr_blind);
    lemma_same_cards(v, w);
    lemma_seats_kept(v, w);
    assert(w.users[w.curr_user] == v.users[w.curr_user].cleared());
}

/// A sum of numbers that are not negative is at least the sum over the
/// first seats.
pub proof fn lemma_sum_prefix(seats: Seq<SeatView>, i: int, f: spec_fn(SeatView) -> int)
    requires
        0 <= i <= seats.len(),
        forall|k: int| 0 <= k < seats.len() ==> 0 <= f(#[trigger] seats[k]),
    ensures
        0 <= sum_over(seats.take(i), f) <= sum_over(seats, f),
    decreases seats.len(),
{
    if i == seats.len() {
        assert(seats.take(i) =~= seats);
        if seats.len() > 0 {
            lemma_sum_prefix(seats.drop_last(), i - 1, f);
            assert(seats.drop_last().take(i - 1) =~= seats.drop_last());
            assert(seats.last() == seats[seats.len() - 1]);
        }
    } else {
        let front = seats.drop_last();
        assert forall|k: int| 0 <= k < front.len() implies 0 <= f(#[trigger] front[k]) by {
            assert(front[k] == seats[k]);
        }
        lemma_sum_prefix(front, i, f);
        assert(front.take(i) =~= seats.take(i));
        assert(seats.last() == seats[seats.len() - 1]);
    }
}

/// The cards drawn and the cards left are together the deck.
pub proof fn lemma_draw_split(deck: Seq<Card>, n: int)
    requires
        0 <= n <= deck.len(),
    ensures
        deck.to_multiset() == deck.take(deck.len() - n).to_multiset().add(
            drawn(deck, n).to_multiset(),
        ),
{
    let rest = deck.take(deck.len() - n);
    let tail = deck.skip(deck.len() - n);
    assert(deck =~= rest + tail);
    vstd::seq_lib::lemma_multiset_commutative(rest, tail);
    assert(drawn(deck, n) =~= tail.reverse());
    tail.lemma_reverse_to_multiset();
}

/// In a room that holds no card twice, the deck holds no card twice.
pub proof fn lemma_deck_distinct(v: GameView)
    requires
        v.cards_distinct(),
    ensures
        v.deck.no_duplicates(),
{
    broadcast use vstd::multiset::group_multiset_axioms;

    assert forall|c: Card| v.deck.to_multiset().contains(c) implies v.deck.to_multiset().count(c)
        == 1 by {
        assert(v.cards().count(c) <= 1);
    }
    v.deck.lemma_multiset_has_no_duplicates_conv();
}

/// Taking cards off the deck keeps the room well formed, and no card
/// that was taken is still in the deck.
pub proof fn lemma_without_top(v: GameView, n: int)
    requires
        v.wf(),
        0 <= n <= v.deck.len(),
    ensures
        v.without_top(n).wf(),
        forall|i: int|
            0 <= i < n ==> !v.without_top(n).deck.contains(#[trigger] drawn(v.deck, n)[i]),
{
    broadcast use vstd::multiset::group_multiset_axioms;

    let w = v.without_top(n);
    lemma_draw_split(v.deck, n);
    assert forall|c: Card| w.cards().count(c) <= 1 by {
        assert(v.cards().count(c) <= 1);
    }
    lemma_deck_distinct(v);
    assert forall|i: int| 0 <= i < n implies !w.deck.contains(#[trigger] drawn(v.deck, n)[i]) by {
        if w.deck.contains(drawn(v.deck, n)[i]) {
            let k = choose|k: int| 0 <= k < w.deck.len() && w.deck[k] == drawn(v.deck, n)[i];
            assert(v.deck[k] == v.deck[v.deck.len() - 1 - i]);
        }
    }
}

/// Revealing community cards keeps the room well formed, and the cards
/// of the room stay the same cards.
pub proof fn lemma_revealed(v: GameView)
    requires
        v.wf(),
    ensures
        v.revealed().0.wf(),
        v.revealed().1.is_err() ==> v.revealed().0 == v,
        v.revealed().1.is_ok() ==> v.revealed().0.cards() == v.cards(),
        v.revealed().1.is_ok() ==> v.community_dealt().base() && count_active(
            v.community_dealt().users,
        ) >= 2 && v.community_dealt().pot <= pot_bound(
            v.community_dealt().current_state,
            BettingStage::NOBETS,
        ),
{
    broadcast use vstd::multiset::group_multiset_axioms;

    let (w, res) = v.revealed();
    if res.is_ok() {
        let state = v.current_state;
        let n = GameView::reveal_count(state);
        let mid = v.community_dealt();
        lemma_draw_split(v.deck, n);
        vstd::seq_lib::lemma_multiset_commutative(v.community_cards, drawn(v.deck, n));
        assert(mid.cards() =~= v.cards());
        lemma_same_cards(v, mid);
        lemma_seats_kept(v, mid);
        assert(mid.uuids() =~= v.uuids());
        if state != GameState::RIVER {
            lemma_round_opened(mid);
            lemma_held_same(mid.users, w.users);
        }
    }
}

/// After the deal the room is ready for the first betting round, given
/// that the cards of the room are still the same cards.
pub proof fn lemma_hands_dealt(v: GameView)
    requires
        v.wf(),
        v.current_state == GameState::DEAL,
        2 * count_playing(v.users) <= v.deck.len(),
        v.hands_dealt().cards() == v.cards(),
    ensures
        v.hands_dealt().base(),
        count_active(v.hands_dealt().users) >= 2,
        v.hands_dealt().pot <= pot_bound(GameState::FLOPBETTING, BettingStage::NOBETS),
        v.hands_dealt().round_opened().wf(),
{
    let w = v.hands_dealt();
    assert(w.uuids() =~= v.uuids());
    lemma_sum_same(v.users, w.users, committed_of());
    lemma_sum_same(v.users, w.users, active_flag());
    lemma_same_cards(v, w);
    assert forall|i: int| 0 <= i < w.users.len() implies (#[trigger] w.users[i]).wf(w.pot) && (
    w.users[i].is_room_owner <==> i == 0) && w.users[i].hand.len() == (if w.current_state.ordinal()
        >= 3 && w.users[i].is_playing {
        2nat
    } else {
        0nat
    }) by {
        assert(v.users[i].wf(v.pot));
        assert(v.users[i].hand.len() == 0);
    }
    lemma_round_opened(w);
}

/// No seat still in the hand is stronger than the top rank, and where a
/// seat is still in the hand, one of them has the top rank: somebody
/// wins.
pub proof fn lemma_top_rank(seats: Seq<SeatView>)
    requires
        forall|i: int| 0 <= i < seats.len() ==> 0 <= (#[trigger] seats[i]).hand_rank,
    ensures
        0 <= top_rank(seats),
        forall|i: int|
            0 <= i < seats.len() && (#[trigger] seats[i]).active() ==> seats[i].hand_rank
                <= top_rank(seats),
        (exists|i: int| 0 <= i < seats.len() && (#[trigger] seats[i]).active()) ==> exists|i: int|
            0 <= i < seats.len() && wins(seats, i),
    decreases seats.len(),
{
    if seats.len() > 0 {
        let front = seats.drop_last();
        let last = seats.len() - 1;
        assert forall|i: int| 0 <= i < front.len() implies 0 <= (#[trigger] front[i]).hand_rank by {
            assert(front[i] == seats[i]);
        }
        lemma_top_rank(front);
        assert forall|i: int| 0 <= i < seats.len() && (#[trigger] seats[i]).active()
            implies seats[i].hand_rank <= top_rank(seats) by {
            if i < last {
                assert(front[i] == seats[i]);
            }
        }
        if exists|i: int| 0 <= i < seats.len() && (#[trigger] seats[i]).active() {
            if seats[last].active() && seats[last].hand_rank >= top_rank(front) {
                assert(wins(seats, last));
            } else {
                let k = choose|k: int| 0 <= k < seats.len() && (#[trigger] seats[k]).active();
                if k == last {
                    assert(seats[last].hand_rank < top_rank(front));
                    if exists|i: int| 0 <= i < front.len() && (#[trigger] front[i]).active() {
                    } else {
                        lemma_top_rank_idle(front);
                    }
                } else {
                    assert(front[k].active());
                }
                let j = choose|j: int| 0 <= j < front.len() && wins(front, j);
                assert(front[j] == seats[j]);
                assert(wins(seats, j));
            }
        }
    }
}

/// Where no seat is in the hand any more, the top rank is 0.
pub proof fn lemma_top_rank_idle(seats: Seq<SeatView>)
    requires
        forall|i: int| 0 <= i < seats.len() ==> !(#[trigger] seats[i]).active(),
    ensures
        top_rank(seats) == 0,
    decreases seats.len(),
{
    if seats.len() > 0 {
        let front = seats.drop_last();
        assert forall|i: int| 0 <= i < front.len() implies !(#[trigger] front[i]).active() by {
            assert(front[i] == seats[i]);
        }
        lemma_top_rank_idle(front);
        assert(seats.last() == seats[seats.len() - 1]);
    }
}

/// Where a seat is still in the hand, at least one seat wins, and a seat
/// is paid no more than the pot.
pub proof fn lemma_payout(seats: Seq<SeatView>, pot: int, i: int)
    requires
        forall|k: int| 0 <= k < seats.len() ==> 0 <= (#[trigger] seats[k]).hand_rank,
        count_active(seats) >= 1,
        0 <= pot,
        0 <= i < seats.len(),
    ensures
        1 <= count_winners(seats) <= seats.len(),
        0 <= payout(seats, pot, i) <= pot,
{
    lemma_some_active(seats);
    lemma_top_rank(seats);
    let flag = winner_flag(top_rank(seats));
    assert forall|k: int| 0 <= k < seats.len() implies 0 <= flag(#[trigger] seats[k]) <= 1 by {}
    lemma_sum_of_flags(seats, flag);
    let w = choose|w: int| 0 <= w < seats.len() && wins(seats, w);
    assert(flag(seats[w]) == 1);
    let k = count_winners(seats);
    vstd::arithmetic::div_mod::lemma_fundamental_div_mod(pot, k);
    vstd::arithmetic::div_mod::lemma_mod_bound(pot, k);
    vstd::arithmetic::div_mod::lemma_div_pos_is_pos(pot, k);
    let share = pot / k;
    assert(share <= k * share) by (nonlinear_arith)
        requires
            k >= 1,
            share >= 0,
    ;
}

/// Putting down the strengths keeps the room well formed.
pub proof fn lemma_ranked(v: GameView, ranks: Seq<u32>)
    requires
        v.wf(),
    ensures
        v.ranked(ranks).0.wf(),
        v.ranked(ranks).1.is_err() ==> v.ranked(ranks).0 == v,
{
    let (w, res) = v.ranked(ranks);
    if res.is_ok() {
        assert(w.uuids() =~= v.uuids());
        lemma_sum_same(v.users, w.users, committed_of());
        lemma_sum_same(v.users, w.users, active_flag());
        lemma_held_same(v.users, w.users);
        lemma_same_cards(v, w);
        lemma_seats_kept(v, w);
    }
}

/// Paying out the pot keeps the room well formed.
pub proof fn lemma_paid(v: GameView)
    requires
        v.wf(),
    ensures
        v.paid().0.wf(),
        v.paid().1.is_err() ==> v.paid().0 == v,
        v.paid().1.is_ok() ==> v.paid().0.pot == v.pot,
{
    let (w, res) = v.paid();
    if res.is_ok() {
        assert(w.uuids() =~= v.uuids());
        lemma_sum_same(v.users, w.users, committed_of());
        lemma_held_same(v.users, w.users);
        lemma_same_cards(v, w);
        assert forall|k: int| 0 <= k < v.users.len() implies 0 <= (#[trigger] v.users[k]).hand_rank by {
            assert(v.users[k].wf(v.pot));
        }
        assert forall|i: int| 0 <= i < w.users.len() implies seat_kept(
            v.users[i],
            #[trigger] w.users[i],
            0,
            w.pot,
            true,
        ) by {
            lemma_payout(v.users, v.pot, i);
        }
        lemma_seats_kept(v, w);
    }
}

/// A hand that was called off leaves a well formed room before a hand,
/// with the same players in the same seats and a full deck.
pub proof fn lemma_voided(v: GameView, deck: Seq<Card>)
    requires
        v.wf(),
        is_permutation(deck, full_deck()),
    ensures
        v.voided(deck).wf(),
        v.voided(deck).uuids() == v.uuids(),
        v.voided(deck).deck.len() == 52,
{
    broadcast use vstd::multiset::group_multiset_axioms;

    let w = v.voided(deck);
    assert(w.uuids() =~= v.uuids());
    lemma_nothing_committed(w.users);
    lemma_held_none(w.users);
    lemma_shuffled_deck(deck);
    deck.lemma_multiset_has_no_duplicates();
    assert forall|c: Card| w.community_cards.to_multiset().count(c) == 0 by {
        vstd::seq_lib::to_multiset_contains(w.community_cards, c);
    }
    assert forall|c: Card| w.cards().count(c) <= 1 by {
        if deck.to_multiset().contains(c) {
        }
    }
    assert forall|i: int| 0 <= i < w.users.len() implies (#[trigger] w.users[i]).wf(w.pot) && (
    w.users[i].is_room_owner <==> i == 0) by {
        assert(v.users[i].wf(v.pot));
    }
}

/// The room after a series of bets, each made in the phase that the room
/// is in when it comes.
pub open spec fn after_bets(v: GameView, bets: Seq<(Seq<char>, Bet)>) -> GameView
    decreases bets.len(),
{
    if bets.len() == 0 {
        v
    } else {
        let before = after_bets(v, bets.drop_last());
        before.bet_step(bets.last().0, bets.last().1, before.current_state).0
    }
}

/// Whatever bets come in, taken or refused, the pot is at every moment
/// what the seats have put into it in this hand, and it never shrinks.
pub proof fn lemma_pot_after_bets(v: GameView, bets: Seq<(Seq<char>, Bet)>)
    requires
        v.wf(),
    ensures
        after_bets(v, bets).wf(),
        after_bets(v, bets).pot == total_committed(after_bets(v, bets).users),
        after_bets(v, bets).pot >= v.pot,
    decreases bets.len(),
{
    if bets.len() > 0 {
        lemma_pot_after_bets(v, bets.drop_last());
        let before = after_bets(v, bets.drop_last());
        lemma_bet_step(before, bets.last().0, bets.last().1, before.current_state);
    }
}

/// A bet from a seat other than the one whose turn it is fails with
/// `NotYourTurn`, whatever the bet, and changes nothing.
pub proof fn lemma_not_your_turn(v: GameView, uuid: Seq<char>, bet: Bet)
    requires
        v.current_state.is_betting(),
        v.seat_of(uuid).is_some(),
        v.seat_of(uuid) != Some(v.curr_user),
    ensures
        v.bet_step(uuid, bet, v.current_state) == (v, Err::<(), GameError>(GameError::NotYourTurn)),
        v.run(ActionView::Bet { uuid, bet }) == (v, Err::<(), GameError>(GameError::NotYourTurn)),
{
}

/// In a betting phase an action does to the room what the bet does and
/// nothing more: no card is revealed in the same step. After a bet that
/// ends the round the room is in the phase that follows the round; after
/// a bet that leaves one seat in the hand the pot is due; after any other
/// bet, and after a refused one, the phase is the same.
pub proof fn lemma_run_takes_bet(v: GameView, uuid: Seq<char>, bet: Bet)
    requires
        v.current_state.is_betting(),
    ensures
        v.run(ActionView::Bet { uuid, bet }) == v.bet_step(uuid, bet, v.current_state),
        v.run(ActionView::Bet { uuid, bet }).0.deck == v.deck,
        v.run(ActionView::Bet { uuid, bet }).0.community_cards == v.community_cards,
        v.run(ActionView::Bet { uuid, bet }).0.current_state == v.current_state || v.run(
            ActionView::Bet { uuid, bet },
        ).0.current_state == v.current_state.successor() || v.run(
            ActionView::Bet { uuid, bet },
        ).0.current_state == GameState::POTDISTRIBUTION,
{
}

/// In a well formed room the turn is never with a seat that has folded
/// or is out of the hand, and a bet from any other seat is turned down
/// as not being its turn. So a bet is never refused with `AlreadyFolded`,
/// and with `NotPlaying` only where the player has no seat: a player who
/// has folded and bets again gets `NotYourTurn`.
pub proof fn lemma_folded_seat_is_not_at_turn(v: GameView, uuid: Seq<char>, bet: Bet, state: GameState)
    requires
        v.wf(),
    ensures
        v.bet_step(uuid, bet, state).1 != Err::<(), GameError>(GameError::AlreadyFolded),
        v.bet_step(uuid, bet, state).1 == Err::<(), GameError>(GameError::NotPlaying)
            ==> v.seat_of(uuid).is_none(),
        v.current_state == state && state.is_betting() && v.seat_of(uuid).is_some() && !v.users[v.seat_of(
            uuid,
        ).unwrap()].active() ==> v.bet_step(uuid, bet, state) == (
            v,
            Err::<(), GameError>(GameError::NotYourTurn),
        ),
{
    lemma_position(v.uuids(), uuid);
    if v.current_state == state && state.is_betting() {
        lemma_acted(v, bet);
    }
}

/// A raise from the seat whose turn it is is taken exactly when a bet is
/// on the table that nobody has raised and the raise is more than twice
/// that bet; it then goes into the pot and on top of the bet. A raise
/// that is refused changes nothing: pot, bet and stage stay. This holds
/// of every raise that keeps the bet on the table within the largest
/// amount.
pub proof fn lemma_raise_rule(v: GameView, uuid: Seq<char>, value: i32)
    requires
        v.wf(),
        v.current_state.is_betting(),
        v.seat_of(uuid) == Some(v.curr_user),
        v.bet_amount + value <= amount_max(),
    ensures
        v.bet_step(
            uuid,
            Bet { bet_type: BetType::RAISE, value },
            v.current_state,
        ).1.is_ok() <==> v.betting_stage == BettingStage::BETPLACED && value > 2 * v.bet_amount,
        v.betting_stage != BettingStage::BETPLACED ==> v.bet_step(
            uuid,
            Bet { bet_type: BetType::RAISE, value },
            v.current_state,
        ) == (v, Err::<(), GameError>(GameError::NoBetToRaise)),
        v.betting_stage == BettingStage::BETPLACED && value <= 2 * v.bet_amount ==> v.bet_step(
            uuid,
            Bet { bet_type: BetType::RAISE, value },
            v.current_state,
        ) == (v, Err::<(), GameError>(GameError::RaiseTooSmall)),
        v.betting_stage == BettingStage::BETPLACED && value > 2 * v.bet_amount ==> v.bet_step(
            uuid,
            Bet { bet_type: BetType::RAISE, value },
            v.current_state,
        ).0.pot == v.pot + value && v.bet_step(
            uuid,
            Bet { bet_type: BetType::RAISE, value },
            v.current_state,
        ).0.bet_amount == v.bet_amount + value && v.bet_step(
            uuid,
            Bet { bet_type: BetType::RAISE, value },
            v.current_state,
        ).0.betting_stage == BettingStage::RAISED,
{
}

/// The first player to sit down in a new room has seat 0 and owns the
/// room.
pub proof fn lemma_first_join_owns_room(deck: Seq<Card>, uuid: Seq<char>)
    ensures
        GameView::initial(deck).joined(uuid).1.is_ok(),
        GameView::initial(deck).joined(uuid).0.users.len() == 1,
        GameView::initial(deck).joined(uuid).0.users[0] == SeatView::fresh(uuid, true),
        GameView::initial(deck).joined(uuid).0.seat_of(uuid) == Some(0int),
        GameView::initial(deck).run(
            ActionView::Connection { action_type: ConnectionActionType::JOIN, uuid },
        ) == GameView::initial(deck).joined(uuid),
{
    let v = GameView::initial(deck);
    assert(v.uuids() =~= Seq::empty());
    lemma_position_absent(v.uuids(), uuid);
    let w = v.joined(uuid).0;
    assert(w.uuids() =~= seq![uuid]);
    assert(is_first_at(w.uuids(), uuid, 0));
    lemma_position_found(w.uuids(), uuid, 0);
}

/// A check.
pub open spec fn check_bet() -> Bet {
    Bet { bet_type: BetType::CHECK, value: 0 }
}

/// The room after the seat whose turn it is checked, `k` times over.
pub open spec fn after_checks(v: GameView, k: nat) -> GameView
    decreases k,
{
    if k == 0 {
        v
    } else {
        let before = after_checks(v, (k - 1) as nat);
        before.bet_step(before.users[before.curr_user].uuid, check_bet(), before.current_state).0
    }
}

/// A betting round that has just opened: nobody has bet, and the turn is
/// with the first seat of the table that is still in the hand.
pub open spec fn round_fresh(v: GameView) -> bool {
    &&& v.wf()
    &&& v.current_state.is_betting()
    &&& v.betting_stage == BettingStage::NOBETS
    &&& forall|i: int|
        0 <= i < v.users.len() && (#[trigger] v.users[i]).active() ==> v.users[i].bet.bet_type
            == BetType::NONE && i >= v.curr_user
}

/// A round of checks under way: `w` is the room `v` after `k` of its
/// seats checked. The seats before the turn have checked, the others
/// have not bet.
pub open spec fn checking(v: GameView, w: GameView, k: int) -> bool {
    &&& w.wf()
    &&& w.current_state == v.current_state
    &&& w.current_state.is_betting()
    &&& w.betting_stage == BettingStage::NOBETS
    &&& count_active(w.users) == count_active(v.users)
    &&& count_active(w.users.take(w.curr_user)) == k
    &&& forall|i: int|
        0 <= i < w.users.len() && (#[trigger] w.users[i]).active() ==> w.users[i].bet.bet_type == (
        if i < w.curr_user {
            BetType::CHECK
        } else {
            BetType::NONE
        })
}

/// Seats that are out of the hand do not count.
pub proof fn lemma_count_gap(seats: Seq<SeatView>, a: int, b: int)
    requires
        0 <= a <= b <= seats.len(),
        forall|i: int| a <= i < b ==> !(#[trigger] seats[i]).active(),
    ensures
        count_active(seats.take(b)) == count_active(seats.take(a)),
    decreases b - a,
{
    if a < b {
        lemma_count_gap(seats, a, b - 1);
        assert(seats.take(b) =~= seats.take(b - 1).push(seats[b - 1]));
        lemma_sum_push(seats.take(b - 1), seats[b - 1], active_flag());
    }
}

/// One more check in a round of checks: while a seat that has not bet is
/// left, the round goes on in the same phase; the check of the last such
/// seat ends the round, and the phase moves on by one.
pub proof fn lemma_check_step(v: GameView, w: GameView, k: int)
    requires
        checking(v, w, k),
    ensures
        k + 1 <= count_active(v.users),
        k + 1 < count_active(v.users) ==> checking(v, after_checks(w, 1), k + 1),
        k + 1 == count_active(v.users) ==> after_checks(w, 1).current_state
            == v.current_state.successor(),
{
    reveal_with_fuel(after_checks, 2);
    let n = count_active(v.users);
    let c = w.curr_user;
    let uuid = w.users[c].uuid;
    assert(w.uuids()[c] == uuid);
    assert(is_first_at(w.uuids(), uuid, c));
    lemma_position_found(w.uuids(), uuid, c);
    let mid = w.recorded(check_bet(), 0);
    lemma_recorded(w, check_bet(), 0, w.betting_stage, w.bet_amount);
    assert(mid.at_stage(w.betting_stage, w.bet_amount) == mid);
    assert(w.checked() == (mid, Ok::<(), GameError>(())));
    let after = mid.turn_passed();
    assert(w.bet_step(uuid, check_bet(), w.current_state) == (after, Ok::<(), GameError>(())));
    assert(after_checks(w, 1) == after);
    lemma_turn_passed(mid);
    assert(mid.users.take(c) =~= w.users.take(c));
    assert(mid.users.take(c + 1) =~= mid.users.take(c).push(mid.users[c]));
    lemma_sum_push(mid.users.take(c), mid.users[c], active_flag());
    assert forall|i: int| 0 <= i < mid.users.len() implies 0 <= active_flag()(
        #[trigger] mid.users[i],
    ) by {}
    lemma_sum_prefix(mid.users, c + 1, active_flag());
    if exists|j: int| c < j < mid.users.len() && (#[trigger] mid.users[j]).active() {
        let j = choose|j: int| c < j < mid.users.len() && (#[trigger] mid.users[j]).active();
        lemma_first_active_in(mid.users, c + 1, mid.users.len() as int);
        let first = first_active_in(mid.users, c + 1, mid.users.len() as int).unwrap();
        assert(mid.users[first] == w.users[first]);
        assert(!mid.users[first].settled(mid.betting_stage));
        assert(!mid.all_settled());
        assert(after.curr_user == first);
        lemma_count_gap(mid.users, c + 1, first);
        assert(mid.users.take(first + 1) =~= mid.users.take(first).push(mid.users[first]));
        lemma_sum_push(mid.users.take(first), mid.users[first], active_flag());
        lemma_sum_prefix(mid.users, first + 1, active_flag());
        assert forall|i: int| 0 <= i < after.users.len() && (#[trigger] after.users[i]).active()
            implies after.users[i].bet.bet_type == (if i < after.curr_user {
            BetType::CHECK
        } else {
            BetType::NONE
        }) by {
            if i != c {
                assert(after.users[i] == w.users[i]);
            }
        }
    } else {
        lemma_count_gap(mid.users, c + 1, mid.users.len() as int);
        assert(mid.users.take(mid.users.len() as int) =~= mid.users);
        assert forall|i: int| 0 <= i < mid.users.len() && (#[trigger] mid.users[i]).active()
            implies mid.users[i].settled(mid.betting_stage) by {
            if i != c {
                assert(mid.users[i] == w.users[i]);
            }
        }
        assert(mid.all_settled());
    }
}

/// A round of checks, up to its end.
pub proof fn lemma_round_of_checks(v: GameView, k: nat)
    requires
        round_fresh(v),
        k <= count_active(v.users),
    ensures
        k < count_active(v.users) ==> checking(v, after_checks(v, k), k as int),
        k == count_active(v.users) ==> after_checks(v, k).current_state
            == v.current_state.successor(),
    decreases k,
{
    reveal_with_fuel(after_checks, 2);
    if k == 0 {
        lemma_count_gap(v.users, 0, v.curr_user);
        assert(v.users.take(0) =~= Seq::empty());
    } else {
        lemma_round_of_checks(v, (k - 1) as nat);
        let w = after_checks(v, (k - 1) as nat);
        lemma_check_step(v, w, k - 1);
        assert(after_checks(v, k) == after_checks(w, 1));
    }
}

/// In a betting round in which nobody bets, the phase moves on exactly
/// once: not before the last of the seats that are in the hand has
/// checked, and with that check by one phase. The round is one that opens
/// at the first seat of the table that is still in the hand.
pub proof fn lemma_checks_end_round_once(v: GameView)
    requires
        round_fresh(v),
    ensures
        forall|k: nat|
            k < count_active(v.users) ==> (#[trigger] after_checks(v, k)).current_state
                == v.current_state,
        after_checks(v, count_active(v.users) as nat).current_state
            == v.current_state.successor(),
        v.current_state.successor() != v.current_state,
{
    assert forall|k: nat| k < count_active(v.users) implies (#[trigger] after_checks(
        v,
        k,
    )).current_state == v.current_state by {
        lemma_round_of_checks(v, k);
    }
    lemma_round_of_checks(v, count_active(v.users) as nat);
}

/// A betting round that opens with the blind at seat 0 opens at the
/// first seat of the table that is still in the hand, with nothing bet.
pub proof fn lemma_opened_round_is_fresh(v: GameView)
    requires
        v.base(),
        v.current_state.is_betting(),
        count_active(v.users) >= 2,
        v.pot <= pot_bound(v.current_state, BettingStage::NOBETS),
        v.curr_blind == 0,
    ensures
        round_fresh(v.round_opened()),
{
    let w = v.round_opened();
    lemma_round_opened(v);
    lemma_some_active(v.users);
    lemma_first_active_in(v.users, 0, v.users.len() as int);
    assert forall|i: int| 0 <= i < w.users.len() && (#[trigger] w.users[i]).active()
        implies w.users[i].bet.bet_type == BetType::NONE && i >= w.curr_user by {
        assert(v.users[i].active());
    }
}

/// The pot is paid out in full: what the seats are paid is together the
/// pot.
pub proof fn lemma_paid_in_full(v: GameView)
    requires
        v.wf(),
        v.current_state == GameState::POTDISTRIBUTION,
    ensures
        total_winnings(v.paid().0.users) == v.pot,
{
    assert forall|k: int| 0 <= k < v.users.len() implies 0 <= (#[trigger] v.users[k]).hand_rank by {
        assert(v.users[k].wf(v.pot));
    }
    assert(v.users[0].wf(v.pot)) by {
        lemma_some_active(v.users);
    }
    lemma_payout(v.users, v.pot, 0);
    lemma_paid_upto(v, v.users.len() as int);
    let k = count_winners(v.users);
    assert(v.paid().0.users.take(v.users.len() as int) =~= v.paid().0.users);
    assert(v.users.take(v.users.len() as int) =~= v.users);
    vstd::arithmetic::div_mod::lemma_fundamental_div_mod(v.pot, k);
    let share = v.pot / k;
    assert(share * k == k * share) by (nonlinear_arith);
    assert(winners_before(v.users, v.users.len() as int) == k);
}

/// What the first `n` seats are paid: a share for each of them that
/// wins, and what is left over after equal shares if one of them wins.
proof fn lemma_paid_upto(v: GameView, n: int)
    requires
        v.current_state == GameState::POTDISTRIBUTION,
        0 <= n <= v.users.len(),
        count_winners(v.users) >= 1,
    ensures
        sum_over(v.paid().0.users.take(n), winnings_of()) == (v.pot / count_winners(v.users))
            * winners_before(v.users, n) + if winners_before(v.users, n) >= 1 {
            v.pot % count_winners(v.users)
        } else {
            0
        },
        0 <= winners_before(v.users, n),
    decreases n,
{
    let paid = v.paid().0.users;
    let flag = winner_flag(top_rank(v.users));
    if n == 0 {
        assert(paid.take(0) =~= Seq::empty());
        assert(v.users.take(0) =~= Seq::empty());
    } else {
        lemma_paid_upto(v, n - 1);
        assert(paid.take(n) =~= paid.take(n - 1).push(paid[n - 1]));
        assert(v.users.take(n) =~= v.users.take(n - 1).push(v.users[n - 1]));
        lemma_sum_push(paid.take(n - 1), paid[n - 1], winnings_of());
        lemma_sum_push(v.users.take(n - 1), v.users[n - 1], flag);
        let share = v.pot / count_winners(v.users);
        let before = winners_before(v.users, n - 1);
        assert(share * (before + 1) == share * before + share) by (nonlinear_arith);
        assert(paid[n - 1].winnings == payout(v.users, v.pot, n - 1));
    }
}

} // verus!
