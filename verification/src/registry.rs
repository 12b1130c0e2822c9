//! The room registry: which rooms exist, which room each player is in, and
//! where each request goes.
use vstd::prelude::*;
use crate::lookup::{find_text, is_first_at, lemma_position, lemma_position_absent, lemma_position_found, position, texts};
use crate::poker_state::{Action, ActionView, Bet, BetAction, ConnectionAction, ConnectionActionType};
use crate::random::uniform_inclusive;

verus! {

/// How many room ids `create_room` draws before it gives up.
pub const MAX_ID_ATTEMPTS: usize = 64;

#[allow(non_camel_case_types)]
#[derive(PartialEq, Eq, Structural, Debug, Clone, Copy)]
pub enum GameType {
    POKER,
}

/// What a client asks of the server.
#[derive(PartialEq, Eq, Debug, Clone)]
pub enum Request {
    Join { player_id: String, username: String, room_id: String },
    CreateRoom { player_id: String, username: String, game_type: GameType },
    Leave { player_id: String },
    Bet { player_id: String, bet: Bet },
}

/// What the distributor has to do for a request it accepted.
#[derive(PartialEq, Eq, Debug, Clone)]
pub enum Dispatch {
    /// Put `action` into the mailbox of the room `room_id`.
    Forward { room_id: String, action: Action },
    /// Start a room of `game_type` under `room_id`, then put `action`, the
    /// creator's join, into its mailbox as the first message.
    Open { room_id: String, game_type: GameType, action: Action },
}

pub enum DispatchView {
    Forward { room_id: Seq<char>, action: ActionView },
    Open { room_id: Seq<char>, game_type: GameType, action: ActionView },
}

impl View for Dispatch {
    type V = DispatchView;

    open spec fn view(&self) -> DispatchView {
        match *self {
            Dispatch::Forward { room_id, action } => DispatchView::Forward {
                room_id: room_id@,
                action: action@,
            },
            Dispatch::Open { room_id, game_type, action } => DispatchView::Open {
                room_id: room_id@,
                game_type,
                action: action@,
            },
        }
    }
}

#[derive(PartialEq, Eq, Structural, Debug, Clone, Copy)]
pub enum RoutingError {
    /// No room has the id.
    RoomNotFound,
    /// The player is in no room.
    PlayerNotFound,
    /// A room has the id already.
    RoomIdTaken,
    /// The text is no room id.
    InvalidRoomId,
    /// Every id drawn was taken.
    NoFreeRoomId,
}

/// A room id: four lowercase letters.
pub open spec fn is_room_id(id: Seq<char>) -> bool {
    &&& id.len() == 4
    &&& forall|i: int| 0 <= i < 4 ==> 'a' <= #[trigger] id[i] <= 'z'
}

/// One player's place: the room the player is in.
pub struct MemberView {
    pub player_id: Seq<char>,
    pub room_id: Seq<char>,
}

/// The registry as a plain value: the room ids, and each player with
/// a room.
pub struct RegistryView {
    pub rooms: Seq<Seq<char>>,
    pub members: Seq<MemberView>,
}

/// The players who are in another room than `room_id`, in their order.
pub open spec fn members_outside(members: Seq<MemberView>, room_id: Seq<char>) -> Seq<MemberView>
    decreases members.len(),
{
    if members.len() == 0 {
        members
    } else {
        let rest = members_outside(members.drop_last(), room_id);
        if members.last().room_id != room_id {
            rest.push(members.last())
        } else {
            rest
        }
    }
}

/// Ids as they are drawn for one creation: `MAX_ID_ATTEMPTS` of them,
/// each a room id.
pub open spec fn drawn_ids(ids: Seq<Seq<char>>) -> bool {
    &&& ids.len() == MAX_ID_ATTEMPTS
    &&& forall|k: int| 0 <= k < ids.len() ==> is_room_id(#[trigger] ids[k])
}

impl RegistryView {
    pub open spec fn empty() -> RegistryView {
        RegistryView { rooms: Seq::empty(), members: Seq::empty() }
    }

    pub open spec fn players(self) -> Seq<Seq<char>> {
        Seq::new(self.members.len(), |i: int| self.members[i].player_id)
    }

    /// No room id and no player occurs twice, every room id is four
    /// lowercase letters, and every player's room exists.
    pub open spec fn wf(self) -> bool {
        &&& self.rooms.no_duplicates()
        &&& self.players().no_duplicates()
        &&& forall|i: int| 0 <= i < self.rooms.len() ==> is_room_id(#[trigger] self.rooms[i])
        &&& forall|i: int|
            0 <= i < self.members.len() ==> self.rooms.contains(
                (#[trigger] self.members[i]).room_id,
            )
    }

    pub open spec fn has_room(self, room_id: Seq<char>) -> bool {
        self.rooms.contains(room_id)
    }

    /// The room that the player is in.
    pub open spec fn room_of(self, player_id: Seq<char>) -> Option<Seq<char>> {
        match position(self.players(), player_id) {
            Some(i) => Some(self.members[i].room_id),
            None => None,
        }
    }

    /// The registry with the player in the room, and in no other.
    pub open spec fn with_member(self, player_id: Seq<char>, room_id: Seq<char>) -> RegistryView {
        let entry = MemberView { player_id, room_id };
        match position(self.players(), player_id) {
            Some(i) => RegistryView { members: self.members.update(i, entry), ..self },
            None => RegistryView { members: self.members.push(entry), ..self },
        }
    }

    /// The registry with the player in no room.
    pub open spec fn without_member(self, player_id: Seq<char>) -> RegistryView {
        match position(self.players(), player_id) {
            Some(i) => RegistryView { members: self.members.remove(i), ..self },
            None => self,
        }
    }

    pub open spec fn with_room(self, room_id: Seq<char>) -> RegistryView {
        RegistryView { rooms: self.rooms.push(room_id), ..self }
    }

    /// The registry after a join, and what the join comes to.
    pub open spec fn join(self, player_id: Seq<char>, room_id: Seq<char>) -> (
        RegistryView,
        Result<DispatchView, RoutingError>,
    ) {
        if self.has_room(room_id) {
            (
                self.with_member(player_id, room_id),
                Ok(
                    DispatchView::Forward {
                        room_id,
                        action: ActionView::Connection {
                            action_type: ConnectionActionType::JOIN,
                            uuid: player_id,
                        },
                    },
                ),
            )
        } else {
            (self, Err(RoutingError::RoomNotFound))
        }
    }

    /// The registry after a room was made under a given id.
    pub open spec fn open_room(
        self,
        room_id: Seq<char>,
        player_id: Seq<char>,
        game_type: GameType,
    ) -> (RegistryView, Result<DispatchView, RoutingError>) {
        if !is_room_id(room_id) {
            (self, Err(RoutingError::InvalidRoomId))
        } else if self.has_room(room_id) {
            (self, Err(RoutingError::RoomIdTaken))
        } else {
            (
                self.with_room(room_id).with_member(player_id, room_id),
                Ok(
                    DispatchView::Open {
                        room_id,
                        game_type,
                        action: ActionView::Connection {
                            action_type: ConnectionActionType::JOIN,
                            uuid: player_id,
                        },
                    },
                ),
            )
        }
    }

    /// The registry after a player left.
    pub open spec fn leave(self, player_id: Seq<char>) -> (
        RegistryView,
        Result<DispatchView, RoutingError>,
    ) {
        match self.room_of(player_id) {
            Some(room_id) => (
                self.without_member(player_id),
                Ok(
                    DispatchView::Forward {
                        room_id,
                        action: ActionView::Connection {
                            action_type: ConnectionActionType::QUIT,
                            uuid: player_id,
                        },
                    },
                ),
            ),
            None => (self, Err(RoutingError::PlayerNotFound)),
        }
    }

    /// The registry without a room: the room is gone, and so is every
    /// player who was in it.
    pub open spec fn without_room(self, room_id: Seq<char>) -> RegistryView {
        match position(self.rooms, room_id) {
            Some(i) => RegistryView {
                rooms: self.rooms.remove(i),
                members: members_outside(self.members, room_id),
            },
            None => self,
        }
    }

    /// The registry after a room was closed.
    pub open spec fn close_room(self, room_id: Seq<char>) -> (
        RegistryView,
        Result<(), RoutingError>,
    ) {
        if self.has_room(room_id) {
            (self.without_room(room_id), Ok(()))
        } else {
            (self, Err(RoutingError::RoomNotFound))
        }
    }

    /// The first place of the ids, from `from` on, that holds an id
    /// that no room has.
    pub open spec fn first_free(self, ids: Seq<Seq<char>>, from: int) -> Option<int>
        decreases ids.len() - from,
    {
        if from >= ids.len() {
            None
        } else if !self.has_room(ids[from]) {
            Some(from)
        } else {
            self.first_free(ids, from + 1)
        }
    }

    /// The registry after a room was made under the first of the ids
    /// that no room has. Where every id is taken, nothing changes and the
    /// creation fails.
    pub open spec fn create_from(
        self,
        ids: Seq<Seq<char>>,
        player_id: Seq<char>,
        game_type: GameType,
    ) -> (RegistryView, Result<DispatchView, RoutingError>) {
        match self.first_free(ids, 0) {
            Some(i) => self.open_room(ids[i], player_id, game_type),
            None => (self, Err(RoutingError::NoFreeRoomId)),
        }
    }

    /// What holds after a room was made under an id drawn at random: the
    /// room was made from some draws, as `create_from` has it. So either a
    /// room was opened under some id, which was then a free room id, or
    /// every draw was taken and nothing changed. Where there is no room
    /// yet, no draw can be taken, and a room is opened.
    pub open spec fn created(
        self,
        after: RegistryView,
        res: Result<DispatchView, RoutingError>,
        player_id: Seq<char>,
        game_type: GameType,
    ) -> bool {
        &&& exists|ids: Seq<Seq<char>>|
            drawn_ids(ids) && (after, res) == self.create_from(ids, player_id, game_type)
        &&& self.rooms.len() == 0 ==> res.is_ok()
        &&& match res {
            Ok(d) => d matches DispatchView::Open { room_id, .. } && (after, res) == self.open_room(
                room_id,
                player_id,
                game_type,
            ),
            Err(e) => e == RoutingError::NoFreeRoomId && after == self,
        }
    }

    /// Where a player's bet goes.
    pub open spec fn bet(self, player_id: Seq<char>, bet: Bet) -> Result<
        DispatchView,
        RoutingError,
    > {
        match self.room_of(player_id) {
            Some(room_id) => Ok(
                DispatchView::Forward { room_id, action: ActionView::Bet { uuid: player_id, bet } },
            ),
            None => Err(RoutingError::PlayerNotFound),
        }
    }
}

/// A request's result as a plain value.
pub open spec fn outcome(res: Result<Dispatch, RoutingError>) -> Result<DispatchView, RoutingError> {
    match res {
        Ok(d) => Ok(d@),
        Err(e) => Err(e),
    }
}

struct Member {
    player_id: String,
    room_id: String,
}

/// The registry. It is the only holder of the room ids and of the
/// players' rooms; the mailboxes themselves stay with the caller, keyed
/// by room id.
pub struct Registry {
    rooms: Vec<String>,
    members: Vec<Member>,
}

impl View for Registry {
    type V = RegistryView;

    closed spec fn view(&self) -> RegistryView {
        RegistryView {
            rooms: texts(self.rooms@),
            members: Seq::new(
                self.members@.len(),
                |i: int|
                    MemberView {
                        player_id: self.members@[i].player_id@,
                        room_id: self.members@[i].room_id@,
                    },
            ),
        }
    }
}

/// The letter at a place of the alphabet, as a text of that one letter.
fn letter(index: usize) -> (text: &'static str)
    requires
        index < 26,
    ensures
        text@.len() == 1,
        'a' <= text@[0] <= 'z',
        text@[0] as int == 'a' as int + index,
{
    let alphabet = "abcdefghijklmnopqrstuvwxyz";
    proof {
        reveal_strlit("abcdefghijklmnopqrstuvwxyz");
    }
    alphabet.substring_char(index, index + 1)
}

/// A room id drawn at random: four letters, each drawn from the whole
/// lowercase alphabet.
pub fn generate_random_room_id() -> (room_id: String)
    ensures
        is_room_id(room_id@),
{
    let mut rng = rand::thread_rng();
    let mut room_id = String::new();
    let mut k: usize = 0;
    while k < 4
        invariant
            k <= 4,
            room_id@.len() == k,
            forall|i: int| 0 <= i < k ==> 'a' <= #[trigger] room_id@[i] <= 'z',
        decreases 4 - k,
    {
        let index = uniform_inclusive(&mut rng, 0, 25);
        room_id.append(letter(index));
        k += 1;
    }
    room_id
}

/// Whether a text is a room id.
pub fn is_valid_room_id(text: &String) -> (valid: bool)
    ensures
        valid == is_room_id(text@),
{
    let s = text.as_str();
    if s.unicode_len() != 4 {
        return false;
    }
    let mut i: usize = 0;
    while i < 4
        invariant
            i <= 4,
            s@ == text@,
            s@.len() == 4,
            forall|k: int| 0 <= k < i ==> 'a' <= #[trigger] s@[k] <= 'z',
        decreases 4 - i,
    {
        let c = s.get_char(i);
        if !('a' <= c && c <= 'z') {
            return false;
        }
        i += 1;
    }
    true
}

impl Registry {
    /// The invariant of the registry.
    pub open spec fn wf(&self) -> bool {
        self@.wf()
    }

    /// A registry without rooms.
    pub fn new() -> (registry: Registry)
        ensures
            registry@ == RegistryView::empty(),
            registry.wf(),
    {
        let registry = Registry { rooms: Vec::new(), members: Vec::new() };
        assert(registry@.rooms =~= Seq::empty());
        assert(registry@.members =~= Seq::empty());
        assert(registry@.players() =~= Seq::empty());
        registry
    }

    pub fn has_room(&self, room_id: &String) -> (found: bool)
        ensures
            found == self@.has_room(room_id@),
    {
        let at = find_text(&self.rooms, room_id);
        proof {
            lemma_position(self@.rooms, room_id@);
        }
        at.is_some()
    }

    fn find_member(&self, player_id: &String) -> (found: Option<usize>)
        ensures
            match found {
                Some(i) => position(self@.players(), player_id@) == Some(i as int) && i
                    < self.members@.len(),
                None => position(self@.players(), player_id@).is_none(),
            },
    {
        let mut i: usize = 0;
        while i < self.members.len()
            invariant
                i <= self.members@.len(),
                forall|k: int| 0 <= k < i ==> self@.players()[k] != player_id@,
            decreases self.members@.len() - i,
        {
            if self.members[i].player_id == *player_id {
                proof {
                    lemma_position_found(self@.players(), player_id@, i as int);
                }
                return Some(i);
            }
            i += 1;
        }
        proof {
            lemma_position_absent(self@.players(), player_id@);
        }
        None
    }

    /// The room that the player is in, if any.
    pub fn room_of(&self, player_id: &String) -> (room: Option<String>)
        ensures
            match room {
                Some(r) => self@.room_of(player_id@) == Some(r@),
                None => self@.room_of(player_id@).is_none(),
            },
    {
        match self.find_member(player_id) {
            Some(i) => Some(self.members[i].room_id.clone()),
            None => None,
        }
    }

    fn set_member(&mut self, player_id: String, room_id: String)
        requires
            old(self).wf(),
            old(self)@.has_room(room_id@),
        ensures
            final(self)@ == old(self)@.with_member(player_id@, room_id@),
            final(self).wf(),
    {
        proof {
            lemma_with_member(self@, player_id@, room_id@);
        }
        match self.find_member(&player_id) {
            Some(i) => {
                self.members.set(i, Member { player_id, room_id });
            },
            None => {
                self.members.push(Member { player_id, room_id });
            },
        }
        assert(self@.members =~= old(self)@.with_member(player_id@, room_id@).members);
    }

    /// A player joins a room by its id. Without such a room the join
    /// fails and nothing changes; otherwise the player is in that room
    /// from now on and the join goes to the room.
    pub fn join(&mut self, player_id: String, username: String, room_id: String) -> (res: Result<
        Dispatch,
        RoutingError,
    >)
        requires
            old(self).wf(),
        ensures
            final(self).wf(),
            (final(self)@, outcome(res)) == old(self)@.join(player_id@, room_id@),
    {
        if !self.has_room(&room_id) {
            return Err(RoutingError::RoomNotFound);
        }
        self.set_member(player_id.clone(), room_id.clone());
        Ok(
            Dispatch::Forward {
                room_id,
                action: Action::Connection(
                    ConnectionAction { action_type: ConnectionActionType::JOIN, uuid: player_id },
                ),
            },
        )
    }

    /// A room is made under the given id, with the player as its first
    /// occupant. Fails, and changes nothing, where the text is no room
    /// id or a room has it.
    pub fn open_room(
        &mut self,
        room_id: String,
        player_id: String,
        username: String,
        game_type: GameType,
    ) -> (res: Result<Dispatch, RoutingError>)
        requires
            old(self).wf(),
        ensures
            final(self).wf(),
            (final(self)@, outcome(res)) == old(self)@.open_room(room_id@, player_id@, game_type),
    {
        if !is_valid_room_id(&room_id) {
            return Err(RoutingError::InvalidRoomId);
        }
        if self.has_room(&room_id) {
            return Err(RoutingError::RoomIdTaken);
        }
        self.rooms.push(room_id.clone());
        proof {
            assert(self@.rooms =~= old(self)@.with_room(room_id@).rooms);
            assert(self@ == old(self)@.with_room(room_id@));
            lemma_with_room(old(self)@, room_id@);
        }
        self.set_member(player_id.clone(), room_id.clone());
        Ok(
            Dispatch::Open {
                room_id,
                game_type,
                action: Action::Connection(
                    ConnectionAction { action_type: ConnectionActionType::JOIN, uuid: player_id },
                ),
            },
        )
    }

    /// A room is made under the first of the given ids that no room has,
    /// with the player as its first occupant. Where every id is taken,
    /// the creation fails and nothing changes.
    pub fn create_room_from(
        &mut self,
        ids: &Vec<String>,
        player_id: String,
        username: String,
        game_type: GameType,
    ) -> (res: Result<Dispatch, RoutingError>)
        requires
            old(self).wf(),
        ensures
            final(self).wf(),
            (final(self)@, outcome(res)) == old(self)@.create_from(
                texts(ids@),
                player_id@,
                game_type,
            ),
    {
        let mut i: usize = 0;
        while i < ids.len()
            invariant
                i <= ids@.len(),
                self.wf(),
                self@ == old(self)@,
                self@.first_free(texts(ids@), 0) == self@.first_free(texts(ids@), i as int),
            decreases ids@.len() - i,
        {
            if !self.has_room(&ids[i]) {
                return self.open_room(ids[i].clone(), player_id, username, game_type);
            }
            i += 1;
        }
        Err(RoutingError::NoFreeRoomId)
    }

    /// A room is made under an id drawn at random, with the player as its
    /// first occupant: `MAX_ID_ATTEMPTS` ids are drawn, and the room is
    /// made under the first of them that no room has.
    pub fn create_room(&mut self, player_id: String, username: String, game_type: GameType) -> (res:
        Result<Dispatch, RoutingError>)
        requires
            old(self).wf(),
        ensures
            final(self).wf(),
            old(self)@.created(final(self)@, outcome(res), player_id@, game_type),
    {
        let mut ids: Vec<String> = Vec::new();
        while ids.len() < MAX_ID_ATTEMPTS
            invariant
                ids@.len() <= MAX_ID_ATTEMPTS,
                forall|k: int| 0 <= k < ids@.len() ==> is_room_id(#[trigger] texts(ids@)[k]),
            decreases MAX_ID_ATTEMPTS - ids@.len(),
        {
            let ghost before = texts(ids@);
            ids.push(generate_random_room_id());
            assert forall|k: int| 0 <= k < ids@.len() implies is_room_id(
                #[trigger] texts(ids@)[k],
            ) by {
                if k < before.len() {
                    assert(texts(ids@)[k] == before[k]);
                }
            }
        }
        let res = self.create_room_from(&ids, player_id, username, game_type);
        proof {
            assert(drawn_ids(texts(ids@)));
            lemma_first_free(old(self)@, texts(ids@), 0);
        }
        res
    }

    /// A player leaves. The player's room is looked up; the player is in
    /// no room from now on and the room is told. Fails, and changes
    /// nothing, where the player is in no room.
    pub fn leave(&mut self, player_id: String) -> (res: Result<Dispatch, RoutingError>)
        requires
            old(self).wf(),
        ensures
            final(self).wf(),
            (final(self)@, outcome(res)) == old(self)@.leave(player_id@),
    {
        match self.find_member(&player_id) {
            Some(i) => {
                let room_id = self.members[i].room_id.clone();
                proof {
                    lemma_without_member(self@, player_id@);
                }
                self.members.remove(i);
                assert(self@.members =~= old(self)@.without_member(player_id@).members);
                Ok(
                    Dispatch::Forward {
                        room_id,
                        action: Action::Connection(
                            ConnectionAction {
                                action_type: ConnectionActionType::QUIT,
                                uuid: player_id,
                            },
                        ),
                    },
                )
            },
            None => Err(RoutingError::PlayerNotFound),
        }
    }

    /// A player's bet goes to the room that the player is in.
    pub fn bet(&self, player_id: String, bet: Bet) -> (res: Result<Dispatch, RoutingError>)
        ensures
            outcome(res) == self@.bet(player_id@, bet),
    {
        match self.room_of(&player_id) {
            Some(room_id) => Ok(
                Dispatch::Forward { room_id, action: Action::Bet(BetAction { uuid: player_id, bet }) },
            ),
            None => Err(RoutingError::PlayerNotFound),
        }
    }
}

impl Registry {
    /// The distributor's decision for one request: a join goes to the
    /// room it names, a creation opens a room and seats its creator, a
    /// leave and a bet go to the room that the player is in.
    pub fn route(&mut self, request: Request) -> (res: Result<Dispatch, RoutingError>)
        requires
            old(self).wf(),
        ensures
            final(self).wf(),
            match request {
                Request::Join { player_id, room_id, .. } => (final(self)@, outcome(res)) == old(
                    self,
                )@.join(player_id@, room_id@),
                Request::CreateRoom { player_id, game_type, .. } => old(self)@.created(
                    final(self)@,
                    outcome(res),
                    player_id@,
                    game_type,
                ),
                Request::Leave { player_id } => (final(self)@, outcome(res)) == old(self)@.leave(
                    player_id@,
                ),
                Request::Bet { player_id, bet } => final(self)@ == old(self)@ && outcome(res)
                    == old(self)@.bet(player_id@, bet),
            },
    {
        match request {
            Request::Join { player_id, username, room_id } => self.join(
                player_id,
                username,
                room_id,
            ),
            Request::CreateRoom { player_id, username, game_type } => self.create_room(
                player_id,
                username,
                game_type,
            ),
            Request::Leave { player_id } => self.leave(player_id),
            Request::Bet { player_id, bet } => self.bet(player_id, bet),
        }
    }
}

impl Registry {
    /// Closes a room: the room is gone from the registry, and every
    /// player who was in it is in no room. Fails, and changes nothing,
    /// where there is no such room.
    pub fn close_room(&mut self, room_id: &String) -> (res: Result<(), RoutingError>)
        requires
            old(self).wf(),
        ensures
            final(self).wf(),
            (final(self)@, res) == old(self)@.close_room(room_id@),
    {
        proof {
            lemma_position(self@.rooms, room_id@);
        }
        let at = match find_text(&self.rooms, room_id) {
            Some(i) => i,
            None => {
                return Err(RoutingError::RoomNotFound);
            },
        };
        let mut kept: Vec<Member> = Vec::new();
        let mut i: usize = 0;
        while i < self.members.len()
            invariant
                i <= self.members@.len(),
                self@ == old(self)@,
                Seq::new(
                    kept@.len(),
                    |k: int| MemberView { player_id: kept@[k].player_id@, room_id: kept@[k].room_id@ },
                ) == members_outside(self@.members.take(i as int), room_id@),
            decreases self.members@.len() - i,
        {
            proof {
                let upto = self@.members.take(i as int + 1);
                assert(upto.drop_last() =~= self@.members.take(i as int));
                assert(upto.last() == self@.members[i as int]);
            }
            if self.members[i].room_id != *room_id {
                kept.push(
                    Member {
                        player_id: self.members[i].player_id.clone(),
                        room_id: self.members[i].room_id.clone(),
                    },
                );
            }
            i += 1;
            assert(Seq::new(
                kept@.len(),
                |k: int| MemberView { player_id: kept@[k].player_id@, room_id: kept@[k].room_id@ },
            ) =~= members_outside(self@.members.take(i as int), room_id@));
        }
        proof {
            assert(self@.members.take(i as int) =~= self@.members);
            lemma_without_room(self@, room_id@);
        }
        self.rooms.remove(at);
        self.members = kept;
        assert(self@.rooms =~= old(self)@.without_room(room_id@).rooms);
        assert(self@.members =~= old(self)@.without_room(room_id@).members);
        Ok(())
    }
}

/// The players outside a room are players of the registry, none of them
/// in that room and none of them twice.
pub proof fn lemma_members_outside(members: Seq<MemberView>, room_id: Seq<char>)
    ensures
        forall|k: int|
            0 <= k < members_outside(members, room_id).len() ==> members.contains(
                #[trigger] members_outside(members, room_id)[k],
            ) && members_outside(members, room_id)[k].room_id != room_id,
        forall|j: int|
            0 <= j < members.len() && (#[trigger] members[j]).room_id != room_id
                ==> members_outside(members, room_id).contains(members[j]),
        (forall|a: int, b: int|
            0 <= a < b < members.len() ==> (#[trigger] members[a]).player_id != (
            #[trigger] members[b]).player_id) ==> forall|a: int, b: int|
            0 <= a < b < members_outside(members, room_id).len() ==> (#[trigger] members_outside(
                members,
                room_id,
            )[a]).player_id != (#[trigger] members_outside(members, room_id)[b]).player_id,
    decreases members.len(),
{
    let out = members_outside(members, room_id);
    if members.len() > 0 {
        let front = members.drop_last();
        let rest = members_outside(front, room_id);
        let last = members.last();
        lemma_members_outside(front, room_id);
        assert forall|k: int| 0 <= k < out.len() implies members.contains(#[trigger] out[k])
            && out[k].room_id != room_id by {
            if k < rest.len() {
                assert(out[k] == rest[k]);
                let j = choose|j: int| 0 <= j < front.len() && front[j] == rest[k];
                assert(members[j] == out[k]);
            } else {
                assert(members[members.len() - 1] == out[k]);
            }
        }
        assert forall|j: int| 0 <= j < members.len() && (#[trigger] members[j]).room_id
            != room_id implies out.contains(members[j]) by {
            if j < front.len() {
                assert(front[j] == members[j]);
                let k = choose|k: int| 0 <= k < rest.len() && rest[k] == front[j];
                assert(out[k] == members[j]);
            } else {
                assert(out[out.len() - 1] == members[j]);
            }
        }
        if forall|a: int, b: int|
            0 <= a < b < members.len() ==> (#[trigger] members[a]).player_id != (
            #[trigger] members[b]).player_id {
            assert forall|a: int, b: int| 0 <= a < b < front.len() implies (
            #[trigger] front[a]).player_id != (#[trigger] front[b]).player_id by {
                assert(front[a] == members[a] && front[b] == members[b]);
            }
            assert forall|a: int, b: int| 0 <= a < b < out.len() implies (
            #[trigger] out[a]).player_id != (#[trigger] out[b]).player_id by {
                if b < rest.len() {
                    assert(out[a] == rest[a] && out[b] == rest[b]);
                } else {
                    assert(out[a] == rest[a]);
                    let j = choose|j: int| 0 <= j < front.len() && front[j] == rest[a];
                    assert(members[j] == front[j]);
                    assert(out[b] == members[members.len() - 1]);
                }
            }
        }
    }
}

/// Closing a room keeps the registry well formed; the room is gone and
/// nobody is in it.
pub proof fn lemma_without_room(v: RegistryView, room_id: Seq<char>)
    requires
        v.wf(),
    ensures
        v.without_room(room_id).wf(),
        !v.without_room(room_id).has_room(room_id),
        forall|k: int|
            0 <= k < v.without_room(room_id).members.len() ==> (#[trigger] v.without_room(
                room_id,
            ).members[k]).room_id != room_id,
{
    let w = v.without_room(room_id);
    lemma_position(v.rooms, room_id);
    match position(v.rooms, room_id) {
        Some(i) => {
            crate::lookup::lemma_remove_keeps_distinct(v.rooms, i);
            lemma_members_outside(v.members, room_id);
            assert forall|a: int, b: int| 0 <= a < b < v.members.len() implies (
            #[trigger] v.members[a]).player_id != (#[trigger] v.members[b]).player_id by {
                assert(v.players()[a] != v.players()[b]);
            }
            assert forall|a: int, b: int|
                0 <= a < w.players().len() && 0 <= b < w.players().len() && a != b implies w.players()[a]
                != w.players()[b] by {
                if a < b {
                    assert(w.members[a].player_id != w.members[b].player_id);
                } else {
                    assert(w.members[b].player_id != w.members[a].player_id);
                }
            }
            assert forall|k: int| 0 <= k < w.rooms.len() implies is_room_id(#[trigger] w.rooms[k]) by {
                let from = if k < i {
                    k
                } else {
                    k + 1
                };
                assert(w.rooms[k] == v.rooms[from]);
            }
            assert forall|k: int| 0 <= k < w.members.len() implies w.rooms.contains(
                (#[trigger] w.members[k]).room_id,
            ) by {
                let j = choose|j: int| 0 <= j < v.members.len() && v.members[j] == w.members[k];
                assert(v.rooms.contains(v.members[j].room_id));
                let r = choose|r: int| 0 <= r < v.rooms.len() && v.rooms[r] == v.members[j].room_id;
                let to = if r < i {
                    r
                } else {
                    r - 1
                };
                assert(w.rooms[to] == v.rooms[r]);
            }
        },
        None => {
            assert forall|k: int| 0 <= k < v.members.len() implies (#[trigger] v.members[k]).room_id
                != room_id by {
                assert(v.rooms.contains(v.members[k].room_id));
            }
        },
    }
}

/// A room that was just opened takes joins: whoever joins under the id
/// that the creation returned is sent on to that room, and the creation
/// itself carries the creator's join as the room's first message. A join
/// under an id that no room has fails with `RoomNotFound`.
pub proof fn lemma_opened_room_takes_joins(
    v: RegistryView,
    room_id: Seq<char>,
    creator: Seq<char>,
    game_type: GameType,
    joiner: Seq<char>,
)
    requires
        v.wf(),
        v.open_room(room_id, creator, game_type).1.is_ok(),
    ensures
        v.open_room(room_id, creator, game_type).1 == Ok::<DispatchView, RoutingError>(
            DispatchView::Open {
                room_id,
                game_type,
                action: ActionView::Connection {
                    action_type: ConnectionActionType::JOIN,
                    uuid: creator,
                },
            },
        ),
        v.open_room(room_id, creator, game_type).0.wf(),
        v.open_room(room_id, creator, game_type).0.room_of(creator) == Some(room_id),
        v.open_room(room_id, creator, game_type).0.join(joiner, room_id).1 == Ok::<
            DispatchView,
            RoutingError,
        >(
            DispatchView::Forward {
                room_id,
                action: ActionView::Connection {
                    action_type: ConnectionActionType::JOIN,
                    uuid: joiner,
                },
            },
        ),
        forall|other: Seq<char>| !v.has_room(other) ==> v.join(joiner, other).1 == Err::<
            DispatchView,
            RoutingError,
        >(RoutingError::RoomNotFound),
{
    lemma_with_room(v, room_id);
    lemma_with_member(v.with_room(room_id), creator, room_id);
}

/// What `first_free` finds: the first place from `from` on whose id no
/// room has, or that every id from there on is taken.
pub proof fn lemma_first_free(v: RegistryView, ids: Seq<Seq<char>>, from: int)
    requires
        0 <= from,
    ensures
        match v.first_free(ids, from) {
            Some(i) => from <= i < ids.len() && !v.has_room(ids[i]) && forall|k: int|
                from <= k < i ==> v.has_room(#[trigger] ids[k]),
            None => forall|k: int| from <= k < ids.len() ==> v.has_room(#[trigger] ids[k]),
        },
    decreases ids.len() - from,
{
    if from < ids.len() && v.has_room(ids[from]) {
        lemma_first_free(v, ids, from + 1);
    }
}

/// Adding a room under a free id keeps the registry well formed.
pub proof fn lemma_with_room(v: RegistryView, room_id: Seq<char>)
    requires
        v.wf(),
        is_room_id(room_id),
        !v.has_room(room_id),
    ensures
        v.with_room(room_id).wf(),
        v.with_room(room_id).has_room(room_id),
        forall|r: Seq<char>| v.has_room(r) ==> v.with_room(room_id).has_room(r),
{
    let w = v.with_room(room_id);
    assert(w.players() =~= v.players());
    assert forall|r: Seq<char>| v.has_room(r) implies w.has_room(r) by {
        let k = choose|k: int| 0 <= k < v.rooms.len() && v.rooms[k] == r;
        assert(w.rooms[k] == r);
    }
    assert(w.rooms[v.rooms.len() as int] == room_id);
    assert forall|i: int| 0 <= i < w.members.len() implies w.rooms.contains(
        (#[trigger] w.members[i]).room_id,
    ) by {
        assert(v.has_room(v.members[i].room_id));
    }
}

/// Putting a player into a room that exists keeps the registry well
/// formed, and the player is then in that room.
pub proof fn lemma_with_member(v: RegistryView, player_id: Seq<char>, room_id: Seq<char>)
    requires
        v.wf(),
        v.has_room(room_id),
    ensures
        v.with_member(player_id, room_id).wf(),
        v.with_member(player_id, room_id).room_of(player_id) == Some(room_id),
        v.with_member(player_id, room_id).rooms == v.rooms,
{
    let w = v.with_member(player_id, room_id);
    lemma_position(v.players(), player_id);
    match position(v.players(), player_id) {
        Some(i) => {
            assert(w.players() =~= v.players());
            lemma_position_found(w.players(), player_id, i);
        },
        None => {
            assert(w.players() =~= v.players().push(player_id));
            assert(is_first_at(w.players(), player_id, v.members.len() as int));
            lemma_position_found(w.players(), player_id, v.members.len() as int);
        },
    }
}

/// Taking a player out keeps the registry well formed, and the player is
/// then in no room.
pub proof fn lemma_without_member(v: RegistryView, player_id: Seq<char>)
    requires
        v.wf(),
    ensures
        v.without_member(player_id).wf(),
        v.without_member(player_id).room_of(player_id).is_none(),
        v.without_member(player_id).rooms == v.rooms,
{
    let w = v.without_member(player_id);
    lemma_position(v.players(), player_id);
    match position(v.players(), player_id) {
        Some(i) => {
            assert(w.players() =~= v.players().remove(i));
            assert forall|k: int| 0 <= k < w.players().len() implies w.players()[k]
                != player_id by {
                if k < i {
                    assert(w.players()[k] == v.players()[k]);
                } else {
                    assert(w.players()[k] == v.players()[k + 1]);
                }
            }
            lemma_position_absent(w.players(), player_id);
        },
        None => {},
    }
}

} // verus!
