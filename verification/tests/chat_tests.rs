use rustdemo::chat::{ChatRoom, SocketEvent};

fn recipients(deliveries: &[(u32, String)]) -> Vec<u32> {
    let mut ids: Vec<u32> = deliveries.iter().map(|d| d.0).collect();
    ids.sort();
    ids
}

#[test]
fn message_goes_to_everyone_but_the_sender() {
    let mut room = ChatRoom::new();
    for id in [0, 1, 2] {
        assert!(room.handle(SocketEvent::Connect(id)).is_empty());
    }
    let out = room.handle(SocketEvent::Message(1, "hello".to_string()));
    assert_eq!(recipients(&out), vec![0, 2]);
    assert!(out.iter().all(|d| d.1 == "hello"));
    assert!(room.is_member(1));
}

#[test]
fn lone_member_reaches_nobody() {
    let mut room = ChatRoom::new();
    room.handle(SocketEvent::Connect(7));
    assert!(room.handle(SocketEvent::Message(7, "anyone?".to_string())).is_empty());
}

#[test]
fn connecting_twice_counts_once() {
    let mut room = ChatRoom::new();
    room.handle(SocketEvent::Connect(3));
    room.handle(SocketEvent::Connect(3));
    room.handle(SocketEvent::Connect(4));
    let out = room.handle(SocketEvent::Message(4, "x".to_string()));
    assert_eq!(recipients(&out), vec![3]);
}

#[test]
fn connect_then_disconnect_restores_members() {
    let mut room = ChatRoom::new();
    room.handle(SocketEvent::Connect(1));
    room.handle(SocketEvent::Connect(2));
    assert!(room.handle(SocketEvent::Disconnect(2)).is_empty());
    assert!(!room.is_member(2));
    assert!(room.is_member(1));
    let out = room.handle(SocketEvent::Message(1, "bye".to_string()));
    assert!(out.is_empty());
}

#[test]
fn departed_member_receives_nothing() {
    let mut room = ChatRoom::new();
    for id in [10, 11, 12] {
        room.handle(SocketEvent::Connect(id));
    }
    room.handle(SocketEvent::Disconnect(11));
    room.handle(SocketEvent::Disconnect(99));
    let out = room.handle(SocketEvent::Message(10, "hi".to_string()));
    assert_eq!(recipients(&out), vec![12]);
}
