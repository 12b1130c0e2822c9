//! The broadcast hub: which room channels and which private player
//! channels exist, and on which of them each event is published.
use vstd::prelude::*;
use crate::lookup::{find_text, lemma_position, lemma_remove_keeps_distinct, texts};

verus! {

/// What reaches the hub.
#[derive(PartialEq, Eq, Debug, Clone)]
pub enum HubEvent {
    /// A player joined a room.
    UserJoined { uuid: String, room_id: String },
    /// A player is gone for good.
    UserLeft { uuid: String },
    /// A change of a room's game that everybody in the room may see.
    RoomEvent { room_id: String },
    /// A change meant for one player, such as the cards dealt to the
    /// player. Unless it is `exclusive`, the room sees it too.
    PlayerEvent { room_id: String, uuid: String, exclusive: bool },
}

pub enum HubEventView {
    UserJoined { uuid: Seq<char>, room_id: Seq<char> },
    UserLeft { uuid: Seq<char> },
    RoomEvent { room_id: Seq<char> },
    PlayerEvent { room_id: Seq<char>, uuid: Seq<char>, exclusive: bool },
}

impl View for HubEvent {
    type V = HubEventView;

    open spec fn view(&self) -> HubEventView {
        match *self {
            HubEvent::UserJoined { uuid, room_id } => HubEventView::UserJoined {
                uuid: uuid@,
                room_id: room_id@,
            },
            HubEvent::UserLeft { uuid } => HubEventView::UserLeft { uuid: uuid@ },
            HubEvent::RoomEvent { room_id } => HubEventView::RoomEvent { room_id: room_id@ },
            HubEvent::PlayerEvent { room_id, uuid, exclusive } => HubEventView::PlayerEvent {
                room_id: room_id@,
                uuid: uuid@,
                exclusive,
            },
        }
    }
}

/// What the hub's owner has to do with its channels for one event, in
/// the order given.
#[derive(PartialEq, Eq, Debug, Clone)]
pub enum HubCommand {
    /// Make the broadcast channel of the room.
    OpenRoom(String),
    /// Make the private channel of the player.
    OpenUser(String),
    /// Publish the event on the room's channel.
    ToRoom(String),
    /// Publish the event on the player's channel.
    ToUser(String),
    /// Drop the private channel of the player.
    CloseUser(String),
}

pub enum HubCommandView {
    OpenRoom(Seq<char>),
    OpenUser(Seq<char>),
    ToRoom(Seq<char>),
    ToUser(Seq<char>),
    CloseUser(Seq<char>),
}

impl View for HubCommand {
    type V = HubCommandView;

    open spec fn view(&self) -> HubCommandView {
        match *self {
            HubCommand::OpenRoom(id) => HubCommandView::OpenRoom(id@),
            HubCommand::OpenUser(id) => HubCommandView::OpenUser(id@),
            HubCommand::ToRoom(id) => HubCommandView::ToRoom(id@),
            HubCommand::ToUser(id) => HubCommandView::ToUser(id@),
            HubCommand::CloseUser(id) => HubCommandView::CloseUser(id@),
        }
    }
}

/// A list of commands as plain values.
pub open spec fn commands(list: Seq<HubCommand>) -> Seq<HubCommandView> {
    Seq::new(list.len(), |i: int| list[i]@)
}

/// The hub as a plain value: the rooms and the players that have a
/// channel.
pub struct HubView {
    pub rooms: Seq<Seq<char>>,
    pub users: Seq<Seq<char>>,
}

impl HubView {
    pub open spec fn empty() -> HubView {
        HubView { rooms: Seq::empty(), users: Seq::empty() }
    }

    /// No room and no player has two channels.
    pub open spec fn wf(self) -> bool {
        self.rooms.no_duplicates() && self.users.no_duplicates()
    }

    /// The hub after a join: the room's channel is made if there was
    /// none, the player's channel is made or kept, and the join is
    /// published in the room.
    pub open spec fn joined(self, uuid: Seq<char>, room_id: Seq<char>) -> (
        HubView,
        Seq<HubCommandView>,
    ) {
        let open_room = if self.rooms.contains(room_id) {
            Seq::empty()
        } else {
            seq![HubCommandView::OpenRoom(room_id)]
        };
        let open_user = if self.users.contains(uuid) {
            Seq::empty()
        } else {
            seq![HubCommandView::OpenUser(uuid)]
        };
        (
            HubView {
                rooms: if self.rooms.contains(room_id) {
                    self.rooms
                } else {
                    self.rooms.push(room_id)
                },
                users: if self.users.contains(uuid) {
                    self.users
                } else {
                    self.users.push(uuid)
                },
            },
            open_room + open_user + seq![HubCommandView::ToRoom(room_id)],
        )
    }

    /// The hub after a player left: the player's channel goes.
    pub open spec fn left(self, uuid: Seq<char>) -> (HubView, Seq<HubCommandView>) {
        if self.users.contains(uuid) {
            (
                HubView { users: self.users.remove(self.users.index_of(uuid)), ..self },
                seq![HubCommandView::CloseUser(uuid)],
            )
        } else {
            (self, Seq::empty())
        }
    }

    /// Where an event of a game goes: to the room's channel unless it is
    /// for one player only, and to the player's channel if it is for a
    /// player. A channel that does not exist gets nothing.
    pub open spec fn published(self, room_id: Seq<char>, uuid: Option<Seq<char>>, exclusive: bool)
        -> Seq<HubCommandView> {
        let to_room = if self.rooms.contains(room_id) && !(uuid.is_some() && exclusive) {
            seq![HubCommandView::ToRoom(room_id)]
        } else {
            Seq::empty()
        };
        let to_user = if uuid.is_some() && self.users.contains(uuid.unwrap()) {
            seq![HubCommandView::ToUser(uuid.unwrap())]
        } else {
            Seq::empty()
        };
        to_room + to_user
    }

    /// The hub after an event, and the commands that the event leads to.
    pub open spec fn handle(self, event: HubEventView) -> (HubView, Seq<HubCommandView>) {
        match event {
            HubEventView::UserJoined { uuid, room_id } => self.joined(uuid, room_id),
            HubEventView::UserLeft { uuid } => self.left(uuid),
            HubEventView::RoomEvent { room_id } => (self, self.published(room_id, None, false)),
            HubEventView::PlayerEvent { room_id, uuid, exclusive } => (
                self,
                self.published(room_id, Some(uuid), exclusive),
            ),
        }
    }
}

/// The hub. It decides; the channels themselves stay with the caller,
/// keyed by room id and by player id.
pub struct ChannelHub {
    rooms: Vec<String>,
    users: Vec<String>,
}

impl View for ChannelHub {
    type V = HubView;

    closed spec fn view(&self) -> HubView {
        HubView { rooms: texts(self.rooms@), users: texts(self.users@) }
    }
}

impl ChannelHub {
    /// The invariant of the hub.
    pub open spec fn wf(&self) -> bool {
        self@.wf()
    }

    /// A hub without channels.
    pub fn new() -> (hub: ChannelHub)
        ensures
            hub@ == HubView::empty(),
            hub.wf(),
    {
        let hub = ChannelHub { rooms: Vec::new(), users: Vec::new() };
        assert(hub@.rooms =~= Seq::empty());
        assert(hub@.users =~= Seq::empty());
        hub
    }

    pub fn has_room(&self, room_id: &String) -> (found: bool)
        ensures
            found == self@.rooms.contains(room_id@),
    {
        proof {
            lemma_position(self@.rooms, room_id@);
        }
        find_text(&self.rooms, room_id).is_some()
    }

    pub fn has_user(&self, uuid: &String) -> (found: bool)
        ensures
            found == self@.users.contains(uuid@),
    {
        proof {
            lemma_position(self@.users, uuid@);
        }
        find_text(&self.users, uuid).is_some()
    }

    /// Handles one event: brings the channels up to date and says what is
    /// to be published where.
    pub fn handler(&mut self, message: HubEvent) -> (work: Vec<HubCommand>)
        requires
            old(self).wf(),
        ensures
            final(self).wf(),
            (final(self)@, commands(work@)) == old(self)@.handle(message@),
    {
        let mut work: Vec<HubCommand> = Vec::new();
        match message {
            HubEvent::UserJoined { uuid, room_id } => {
                if !self.has_room(&room_id) {
                    self.rooms.push(room_id.clone());
                    work.push(HubCommand::OpenRoom(room_id.clone()));
                }
                if !self.has_user(&uuid) {
                    self.users.push(uuid.clone());
                    work.push(HubCommand::OpenUser(uuid));
                }
                work.push(HubCommand::ToRoom(room_id));
                proof {
                    let after = old(self)@.joined(uuid@, room_id@);
                    assert(self@.rooms =~= after.0.rooms);
                    assert(self@.users =~= after.0.users);
                    assert(commands(work@) =~= after.1);
                }
            },
            HubEvent::UserLeft { uuid } => {
                proof {
                    lemma_position(self@.users, uuid@);
                }
                match find_text(&self.users, &uuid) {
                    Some(i) => {
                        assert(self@.users.index_of(uuid@) == i);
                        self.users.remove(i);
                        work.push(HubCommand::CloseUser(uuid));
                        proof {
                            let after = old(self)@.left(uuid@);
                            assert(self@.users =~= after.0.users);
                            assert(commands(work@) =~= after.1);
                            old(self)@.users.remove_ensures(i as int);
                            lemma_remove_keeps_distinct(old(self)@.users, i as int);
                        }
                    },
                    None => {
                        assert(commands(work@) =~= Seq::empty());
                    },
                }
            },
            HubEvent::RoomEvent { room_id } => {
                if self.has_room(&room_id) {
                    work.push(HubCommand::ToRoom(room_id));
                }
                assert(commands(work@) =~= self@.published(room_id@, None, false));
            },
            HubEvent::PlayerEvent { room_id, uuid, exclusive } => {
                if !exclusive && self.has_room(&room_id) {
                    work.push(HubCommand::ToRoom(room_id));
                }
                if self.has_user(&uuid) {
                    work.push(HubCommand::ToUser(uuid));
                }
                assert(commands(work@) =~= self@.published(room_id@, Some(uuid@), exclusive));
            },
        }
        work
    }
}

/// Nothing is published on a channel that does not exist: every command
/// that handling an event leads to names a room or a player whose
/// channel the hub holds after the event, and a channel that is dropped
/// is gone.
pub proof fn lemma_commands_name_open_channels(v: HubView, event: HubEventView, k: int)
    requires
        v.wf(),
        0 <= k < v.handle(event).1.len(),
    ensures
        match v.handle(event).1[k] {
            HubCommandView::OpenRoom(id) => v.handle(event).0.rooms.contains(id)
                && !v.rooms.contains(id),
            HubCommandView::OpenUser(id) => v.handle(event).0.users.contains(id)
                && !v.users.contains(id),
            HubCommandView::ToRoom(id) => v.handle(event).0.rooms.contains(id),
            HubCommandView::ToUser(id) => v.handle(event).0.users.contains(id),
            HubCommandView::CloseUser(id) => !v.handle(event).0.users.contains(id)
                && v.users.contains(id),
        },
{
    match event {
        HubEventView::UserJoined { uuid, room_id } => {
            let after = v.joined(uuid, room_id).0;
            if !v.rooms.contains(room_id) {
                assert(after.rooms[v.rooms.len() as int] == room_id);
            }
            if !v.users.contains(uuid) {
                assert(after.users[v.users.len() as int] == uuid);
            }
        },
        HubEventView::UserLeft { uuid } => {
            if v.users.contains(uuid) {
                lemma_remove_keeps_distinct(v.users, v.users.index_of(uuid));
            }
        },
        HubEventView::RoomEvent { room_id } => {},
        HubEventView::PlayerEvent { room_id, uuid, exclusive } => {},
    }
}

} // verus!
