//! What a room makes known after an action, and to whom.
use vstd::prelude::*;
use crate::channel_hub::{HubEvent, HubEventView};
use crate::poker_model::GameView;
use crate::poker_state::{GameError, GameState, PokerGame};

verus! {

/// What a notice tells.
#[derive(PartialEq, Eq, Structural, Debug, Clone, Copy)]
pub enum NoticeKind {
    /// The action was refused, and why.
    Refused(GameError),
    /// The player joined the room.
    Joined,
    /// How the table stands.
    Table,
    /// The cards in the hand of the seat at this place.
    Hand(usize),
    /// What the seat at this place was paid.
    Paid(usize),
}

/// Something to publish: where it goes, and what it tells.
#[derive(PartialEq, Eq, Debug, Clone)]
pub struct Notice {
    pub about: HubEvent,
    pub what: NoticeKind,
}

pub struct NoticeView {
    pub about: HubEventView,
    pub what: NoticeKind,
}

impl View for Notice {
    type V = NoticeView;

    open spec fn view(&self) -> NoticeView {
        NoticeView { about: self.about@, what: self.what }
    }
}

/// A list of notices as plain values.
pub open spec fn notice_views(list: Seq<Notice>) -> Seq<NoticeView> {
    Seq::new(list.len(), |i: int| list[i]@)
}

/// Who asked, as a plain value.
pub open spec fn asker_view(asker: Option<String>) -> Option<Seq<char>> {
    match asker {
        Some(uuid) => Some(uuid@),
        None => None,
    }
}

/// A notice for one player alone.
pub open spec fn to_player(room_id: Seq<char>, uuid: Seq<char>, what: NoticeKind) -> NoticeView {
    NoticeView { about: HubEventView::PlayerEvent { room_id, uuid, exclusive: true }, what }
}

/// A notice for the whole room on how the table stands.
pub open spec fn to_room(room_id: Seq<char>) -> NoticeView {
    NoticeView { about: HubEventView::RoomEvent { room_id }, what: NoticeKind::Table }
}

/// Whoever asked for an action that failed is told so, alone.
pub open spec fn refusal(
    room_id: Seq<char>,
    asker: Option<Seq<char>>,
    outcome: Result<(), GameError>,
) -> Seq<NoticeView> {
    match (outcome, asker) {
        (Err(e), Some(uuid)) => seq![to_player(room_id, uuid, NoticeKind::Refused(e))],
        _ => Seq::empty(),
    }
}

/// A player who joined is made known to the room.
pub open spec fn welcome(
    room_id: Seq<char>,
    asker: Option<Seq<char>>,
    joins: bool,
    outcome: Result<(), GameError>,
) -> Seq<NoticeView> {
    if outcome.is_ok() && joins && asker.is_some() {
        seq![
            NoticeView {
                about: HubEventView::UserJoined { uuid: asker.unwrap(), room_id },
                what: NoticeKind::Joined,
            },
        ]
    } else {
        Seq::empty()
    }
}

/// What each seat is told alone: its hand, where the action started a
/// hand; what it was paid, where the action ended the hand.
pub open spec fn seat_notices(room: GameView, room_id: Seq<char>, before: GameState) -> Seq<
    NoticeView,
> {
    if before == GameState::INITIAL && room.current_state != GameState::INITIAL {
        Seq::new(
            room.users.len(),
            |i: int| to_player(room_id, room.users[i].uuid, NoticeKind::Hand(i as usize)),
        )
    } else if before != GameState::TERMINAL && room.current_state == GameState::TERMINAL {
        Seq::new(
            room.users.len(),
            |i: int| to_player(room_id, room.users[i].uuid, NoticeKind::Paid(i as usize)),
        )
    } else {
        Seq::empty()
    }
}

/// What a room makes known after an action, in the order in which it is
/// published. A refused action changed nothing, and only whoever asked is
/// told. Otherwise a join is made known, then the table, then what each
/// seat is told alone. Where the deck ran out, whoever asked is told and
/// the table after the hand was called off is made known.
pub open spec fn notices(
    room: GameView,
    room_id: Seq<char>,
    before: GameState,
    asker: Option<Seq<char>>,
    joins: bool,
    outcome: Result<(), GameError>,
) -> Seq<NoticeView> {
    if outcome.is_err() && outcome != Err::<(), GameError>(GameError::DeckExhausted) {
        refusal(room_id, asker, outcome)
    } else {
        refusal(room_id, asker, outcome) + welcome(room_id, asker, joins, outcome) + seq![
            to_room(room_id),
        ] + seat_notices(room, room_id, before)
    }
}

/// What is to be published after an action: `game` is the room after
/// the action, `before` the phase it was in, `asker` who asked, `joins`
/// whether the player asked for a seat, and `outcome` what came of it.
pub fn report(
    game: &PokerGame,
    room_id: &String,
    before: GameState,
    asker: Option<String>,
    joins: bool,
    outcome: Result<(), GameError>,
) -> (out: Vec<Notice>)
    ensures
        notice_views(out@) == notices(
            game@,
            room_id@,
            before,
            asker_view(asker),
            joins,
            outcome,
        ),
{
    let mut out: Vec<Notice> = Vec::new();
    match outcome {
        Err(e) => {
            match asker {
                Some(uuid) => {
                    out.push(
                        Notice {
                            about: HubEvent::PlayerEvent {
                                room_id: room_id.clone(),
                                uuid,
                                exclusive: true,
                            },
                            what: NoticeKind::Refused(e),
                        },
                    );
                },
                None => {},
            }
            assert(notice_views(out@) =~= refusal(room_id@, asker_view(asker), outcome));
            if e != GameError::DeckExhausted {
                return out;
            }
        },
        Ok(()) => {
            if joins {
                match asker {
                    Some(uuid) => {
                        out.push(
                            Notice {
                                about: HubEvent::UserJoined { uuid, room_id: room_id.clone() },
                                what: NoticeKind::Joined,
                            },
                        );
                    },
                    None => {},
                }
            }
            assert(notice_views(out@) =~= welcome(room_id@, asker_view(asker), joins, outcome));
        },
    }
    out.push(
        Notice { about: HubEvent::RoomEvent { room_id: room_id.clone() }, what: NoticeKind::Table },
    );
    let ghost head = notice_views(out@);
    assert(head =~= refusal(room_id@, asker_view(asker), outcome) + welcome(
        room_id@,
        asker_view(asker),
        joins,
        outcome,
    ) + seq![to_room(room_id@)]);
    let state = game.state();
    let dealt = before == GameState::INITIAL && state != GameState::INITIAL;
    let over = before != GameState::TERMINAL && state == GameState::TERMINAL;
    if dealt || over {
        let n = game.seat_count();
        let mut i: usize = 0;
        while i < n
            invariant
                i <= n,
                n == game@.users.len(),
                dealt || over,
                dealt == (before == GameState::INITIAL && game@.current_state
                    != GameState::INITIAL),
                over == (before != GameState::TERMINAL && game@.current_state
                    == GameState::TERMINAL),
                notice_views(out@) == head + seat_notices(game@, room_id@, before).take(i as int),
            decreases n - i,
        {
            let ghost sofar = notice_views(out@);
            let ghost all = seat_notices(game@, room_id@, before);
            let seat = game.seat(i).unwrap();
            let what = if dealt {
                NoticeKind::Hand(i)
            } else {
                NoticeKind::Paid(i)
            };
            out.push(
                Notice {
                    about: HubEvent::PlayerEvent {
                        room_id: room_id.clone(),
                        uuid: seat.uuid().clone(),
                        exclusive: true,
                    },
                    what,
                },
            );
            i += 1;
            proof {
                let last = out@[out@.len() - 1]@;
                assert(last == all[i - 1]);
                assert(notice_views(out@) =~= sofar.push(last));
                assert(all.take(i as int) =~= all.take(i - 1).push(all[i - 1]));
                assert(notice_views(out@) =~= head + all.take(i as int));
            }
        }
        assert(seat_notices(game@, room_id@, before).take(n as int) =~= seat_notices(
            game@,
            room_id@,
            before,
        ));
    } else {
        assert(notice_views(out@) =~= head + seat_notices(game@, room_id@, before));
    }
    out
}

} // verus!
