use card_table::channel_hub::{ChannelHub, HubCommand, HubEvent};

fn text(s: &str) -> String {
    s.to_string()
}

#[test]
fn first_join_opens_both_channels() {
    let mut hub = ChannelHub::new();
    assert!(!hub.has_room(&text("room")));
    assert!(!hub.has_user(&text("ann")));
    let work = hub.handler(HubEvent::UserJoined { uuid: text("ann"), room_id: text("room") });
    assert_eq!(
        work,
        vec![
            HubCommand::OpenRoom(text("room")),
            HubCommand::OpenUser(text("ann")),
            HubCommand::ToRoom(text("room")),
        ]
    );
    assert!(hub.has_room(&text("room")));
    assert!(hub.has_user(&text("ann")));
}

#[test]
fn second_join_reuses_the_room_channel() {
    let mut hub = ChannelHub::new();
    hub.handler(HubEvent::UserJoined { uuid: text("ann"), room_id: text("room") });
    let work = hub.handler(HubEvent::UserJoined { uuid: text("bob"), room_id: text("room") });
    assert_eq!(work, vec![HubCommand::OpenUser(text("bob")), HubCommand::ToRoom(text("room"))]);
    let work = hub.handler(HubEvent::UserJoined { uuid: text("bob"), room_id: text("room") });
    assert_eq!(work, vec![HubCommand::ToRoom(text("room"))]);
    let work = hub.handler(HubEvent::UserJoined { uuid: text("bob"), room_id: text("more") });
    assert_eq!(work, vec![HubCommand::OpenRoom(text("more")), HubCommand::ToRoom(text("more"))]);
}

#[test]
fn room_event_goes_to_the_room_channel() {
    let mut hub = ChannelHub::new();
    hub.handler(HubEvent::UserJoined { uuid: text("ann"), room_id: text("room") });
    let work = hub.handler(HubEvent::RoomEvent { room_id: text("room") });
    assert_eq!(work, vec![HubCommand::ToRoom(text("room"))]);
}

#[test]
fn room_event_without_channel_goes_nowhere() {
    let mut hub = ChannelHub::new();
    let work = hub.handler(HubEvent::RoomEvent { room_id: text("room") });
    assert_eq!(work, Vec::<HubCommand>::new());
    assert!(!hub.has_room(&text("room")));
}

#[test]
fn player_event_goes_to_room_and_player() {
    let mut hub = ChannelHub::new();
    hub.handler(HubEvent::UserJoined { uuid: text("ann"), room_id: text("room") });
    let work = hub.handler(HubEvent::PlayerEvent {
        room_id: text("room"),
        uuid: text("ann"),
        exclusive: false,
    });
    assert_eq!(work, vec![HubCommand::ToRoom(text("room")), HubCommand::ToUser(text("ann"))]);
}

#[test]
fn exclusive_player_event_goes_to_the_player_only() {
    let mut hub = ChannelHub::new();
    hub.handler(HubEvent::UserJoined { uuid: text("ann"), room_id: text("room") });
    let work = hub.handler(HubEvent::PlayerEvent {
        room_id: text("room"),
        uuid: text("ann"),
        exclusive: true,
    });
    assert_eq!(work, vec![HubCommand::ToUser(text("ann"))]);
    let work = hub.handler(HubEvent::PlayerEvent {
        room_id: text("room"),
        uuid: text("zed"),
        exclusive: true,
    });
    assert_eq!(work, Vec::<HubCommand>::new());
}

#[test]
fn leaving_closes_the_private_channel() {
    let mut hub = ChannelHub::new();
    hub.handler(HubEvent::UserJoined { uuid: text("ann"), room_id: text("room") });
    hub.handler(HubEvent::UserJoined { uuid: text("bob"), room_id: text("room") });
    let work = hub.handler(HubEvent::UserLeft { uuid: text("ann") });
    assert_eq!(work, vec![HubCommand::CloseUser(text("ann"))]);
    assert!(!hub.has_user(&text("ann")));
    assert!(hub.has_user(&text("bob")));
    assert!(hub.has_room(&text("room")));
    let work = hub.handler(HubEvent::UserLeft { uuid: text("ann") });
    assert_eq!(work, Vec::<HubCommand>::new());
    let work = hub.handler(HubEvent::PlayerEvent {
        room_id: text("room"),
        uuid: text("ann"),
        exclusive: false,
    });
    assert_eq!(work, vec![HubCommand::ToRoom(text("room"))]);
}
